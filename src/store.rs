use vstd::prelude::*;

use crate::error::ErrorKind;

verus! {

/// An immutable snapshot of one resource payload at one version.
pub struct Config {
    /// Store-wide unique identifier: the snapshot's slot in the history arena.
    pub id: usize,
    /// Key of the resource this snapshot belongs to.
    pub resource_key: String,
    /// Per-resource version, starting at 1 with no gaps.
    pub version: usize,
    /// Kind-specific document, kept as serialized bytes.
    pub payload: Vec<u8>,
    /// Creation time in seconds since the epoch.
    pub created_at: i64,
}

/// Mathematical value of a [`Config`].
pub struct ConfigView {
    pub id: nat,
    pub resource_key: Seq<char>,
    pub version: nat,
    pub payload: Seq<u8>,
    pub created_at: int,
}

impl View for Config {
    type V = ConfigView;

    open spec fn view(&self) -> ConfigView {
        ConfigView {
            id: self.id as nat,
            resource_key: self.resource_key@,
            version: self.version as nat,
            payload: self.payload@,
            created_at: self.created_at as int,
        }
    }
}

/// A named, versioned configuration object whose head points at one [`Config`].
pub struct ResourceDbModel {
    pub key: String,
    pub namespace: String,
    /// Discriminator telling kind controllers which payloads they own.
    pub kind: String,
    /// Identifier of the current (head) snapshot.
    pub config_key: usize,
    pub created_at: i64,
}

/// Mathematical value of a [`ResourceDbModel`].
pub struct ResourceView {
    pub key: Seq<char>,
    pub namespace: Seq<char>,
    pub kind: Seq<char>,
    pub config_key: nat,
    pub created_at: int,
}

impl View for ResourceDbModel {
    type V = ResourceView;

    open spec fn view(&self) -> ResourceView {
        ResourceView {
            key: self.key@,
            namespace: self.namespace@,
            kind: self.kind@,
            config_key: self.config_key as nat,
            created_at: self.created_at as int,
        }
    }
}

impl Config {
    pub fn duplicate(&self) -> (r: Config)
        ensures
            r@ == self@,
    {
        Config {
            id: self.id,
            resource_key: self.resource_key.clone(),
            version: self.version,
            payload: copy_bytes(&self.payload),
            created_at: self.created_at,
        }
    }
}

impl ResourceDbModel {
    pub fn duplicate(&self) -> (r: ResourceDbModel)
        ensures
            r@ == self@,
    {
        ResourceDbModel {
            key: self.key.clone(),
            namespace: self.namespace.clone(),
            kind: self.kind.clone(),
            config_key: self.config_key,
            created_at: self.created_at,
        }
    }
}

/// Copies a byte buffer element by element.
pub fn copy_bytes(b: &Vec<u8>) -> (r: Vec<u8>)
    ensures
        r@ == b@,
{
    let mut r: Vec<u8> = Vec::new();
    let mut i: usize = 0;
    while i < b.len()
        invariant
            i <= b@.len(),
            r@ == b@.subrange(0, i as int),
        decreases b@.len() - i,
    {
        r.push(b[i]);
        i = i + 1;
        assert(r@ =~= b@.subrange(0, i as int));
    }
    assert(b@.subrange(0, b@.len() as int) =~= b@);
    r
}

/// Byte-for-byte comparison of two payloads.
pub fn bytes_equal(a: &Vec<u8>, b: &Vec<u8>) -> (r: bool)
    ensures
        r == (a@ == b@),
{
    if a.len() != b.len() {
        return false;
    }
    let mut i: usize = 0;
    while i < a.len()
        invariant
            i <= a@.len(),
            a@.len() == b@.len(),
            forall|j: int| 0 <= j < i ==> a@[j] == b@[j],
        decreases a@.len() - i,
    {
        if a[i] != b[i] {
            return false;
        }
        i = i + 1;
    }
    assert(a@ =~= b@);
    true
}

/// The snapshots of `cs` that belong to `key`, oldest first.
pub open spec fn history_of(cs: Seq<ConfigView>, key: Seq<char>) -> Seq<ConfigView>
    decreases cs.len(),
{
    if cs.len() == 0 {
        Seq::empty()
    } else {
        let rest = history_of(cs.drop_last(), key);
        if cs.last().resource_key == key {
            rest.push(cs.last())
        } else {
            rest
        }
    }
}

pub proof fn lemma_history_len(cs: Seq<ConfigView>, key: Seq<char>)
    ensures
        history_of(cs, key).len() <= cs.len(),
    decreases cs.len(),
{
    if cs.len() > 0 {
        lemma_history_len(cs.drop_last(), key);
    }
}

pub proof fn lemma_history_push(cs: Seq<ConfigView>, c: ConfigView, key: Seq<char>)
    ensures
        history_of(cs.push(c), key) == (if c.resource_key == key {
            history_of(cs, key).push(c)
        } else {
            history_of(cs, key)
        }),
{
    assert(cs.push(c).drop_last() =~= cs);
}

/// A snapshot of `cs` that belongs to `key` appears in the history of `key`.
pub proof fn lemma_history_complete(cs: Seq<ConfigView>, key: Seq<char>, i: int)
    requires
        0 <= i < cs.len(),
        cs[i].resource_key == key,
    ensures
        history_of(cs, key).contains(cs[i]),
    decreases cs.len(),
{
    let h = history_of(cs, key);
    if i == cs.len() - 1 {
        assert(h[h.len() - 1] == cs[i]);
    } else {
        lemma_history_complete(cs.drop_last(), key, i);
        let p = history_of(cs.drop_last(), key);
        let k = choose|k: int| 0 <= k < p.len() && p[k] == cs[i];
        assert(h[k] == cs[i]);
    }
}

/// `h` in reverse order.
pub open spec fn newest_first(h: Seq<ConfigView>) -> Seq<ConfigView> {
    Seq::new(h.len(), |i: int| h[h.len() - 1 - i])
}

/// Lookup table of live resources, built from a sequence with unique keys.
pub open spec fn resource_map(rs: Seq<ResourceView>) -> Map<Seq<char>, ResourceView> {
    Map::new(
        |k: Seq<char>| exists|i: int| 0 <= i < rs.len() && rs[i].key == k,
        |k: Seq<char>| rs[choose|i: int| 0 <= i < rs.len() && rs[i].key == k],
    )
}

pub open spec fn unique_keys(rs: Seq<ResourceView>) -> bool {
    forall|i: int, j: int|
        0 <= i < rs.len() && 0 <= j < rs.len() && #[trigger] rs[i].key == #[trigger] rs[j].key
            ==> i == j
}

pub proof fn lemma_resource_at(rs: Seq<ResourceView>, i: int)
    requires
        unique_keys(rs),
        0 <= i < rs.len(),
    ensures
        resource_map(rs).contains_key(rs[i].key),
        resource_map(rs)[rs[i].key] == rs[i],
{
    let k = rs[i].key;
    assert(exists|j: int| 0 <= j < rs.len() && rs[j].key == k);
    let j = choose|j: int| 0 <= j < rs.len() && rs[j].key == k;
    assert(rs[j].key == rs[i].key);
}

pub proof fn lemma_map_push(rs: Seq<ResourceView>, r: ResourceView)
    requires
        unique_keys(rs.push(r)),
    ensures
        unique_keys(rs),
        !resource_map(rs).contains_key(r.key),
        resource_map(rs.push(r)) == resource_map(rs).insert(r.key, r),
{
    let n = rs.push(r);
    assert forall|i: int, j: int|
        0 <= i < rs.len() && 0 <= j < rs.len() && #[trigger] rs[i].key == #[trigger] rs[j].key
        implies i == j by {
        assert(n[i].key == n[j].key);
    }
    if resource_map(rs).contains_key(r.key) {
        let i = choose|i: int| 0 <= i < rs.len() && rs[i].key == r.key;
        assert(n[i].key == n[rs.len() as int].key);
    }
    lemma_resource_at(n, rs.len() as int);
    assert forall|k: Seq<char>| #[trigger] resource_map(n).contains_key(k) == resource_map(rs).insert(r.key, r).contains_key(k) by {
        if resource_map(n).contains_key(k) && k != r.key {
            let i = choose|i: int| 0 <= i < n.len() && n[i].key == k;
            assert(rs[i].key == k);
        }
        if resource_map(rs).contains_key(k) {
            let i = choose|i: int| 0 <= i < rs.len() && rs[i].key == k;
            assert(n[i].key == k);
        }
    }
    assert forall|k: Seq<char>| #[trigger] resource_map(n).contains_key(k) implies resource_map(n)[k] == resource_map(rs).insert(r.key, r)[k] by {
        if k != r.key {
            let i = choose|i: int| 0 <= i < n.len() && n[i].key == k;
            assert(rs[i] == n[i]);
            lemma_resource_at(n, i);
            lemma_resource_at(rs, i);
        }
    }
    assert(resource_map(n) =~= resource_map(rs).insert(r.key, r));
}

pub proof fn lemma_map_update(rs: Seq<ResourceView>, i: int, r: ResourceView)
    requires
        unique_keys(rs),
        0 <= i < rs.len(),
        rs[i].key == r.key,
    ensures
        unique_keys(rs.update(i, r)),
        resource_map(rs.update(i, r)) == resource_map(rs).insert(r.key, r),
{
    let n = rs.update(i, r);
    assert forall|a: int, b: int|
        0 <= a < n.len() && 0 <= b < n.len() && #[trigger] n[a].key == #[trigger] n[b].key
        implies a == b by {
        assert(rs[a].key == rs[b].key);
    }
    lemma_resource_at(n, i);
    assert forall|k: Seq<char>| #[trigger] resource_map(n).contains_key(k) == resource_map(rs).insert(r.key, r).contains_key(k) by {
        if resource_map(n).contains_key(k) {
            let j = choose|j: int| 0 <= j < n.len() && n[j].key == k;
            assert(rs[j].key == k);
        }
        if resource_map(rs).contains_key(k) {
            let j = choose|j: int| 0 <= j < rs.len() && rs[j].key == k;
            assert(n[j].key == k);
        }
    }
    assert forall|k: Seq<char>| #[trigger] resource_map(n).contains_key(k) implies resource_map(n)[k] == resource_map(rs).insert(r.key, r)[k] by {
        if k != r.key {
            let j = choose|j: int| 0 <= j < n.len() && n[j].key == k;
            assert(rs[j] == n[j]);
            lemma_resource_at(n, j);
            lemma_resource_at(rs, j);
        }
    }
    assert(resource_map(n) =~= resource_map(rs).insert(r.key, r));
}

pub proof fn lemma_map_remove(rs: Seq<ResourceView>, i: int)
    requires
        unique_keys(rs),
        0 <= i < rs.len(),
    ensures
        unique_keys(rs.remove(i)),
        resource_map(rs.remove(i)) == resource_map(rs).remove(rs[i].key),
{
    let n = rs.remove(i);
    let gone = rs[i].key;
    assert forall|a: int, b: int|
        0 <= a < n.len() && 0 <= b < n.len() && #[trigger] n[a].key == #[trigger] n[b].key
        implies a == b by {
        let a2 = if a < i { a } else { a + 1 };
        let b2 = if b < i { b } else { b + 1 };
        assert(rs[a2].key == rs[b2].key);
    }
    assert forall|k: Seq<char>| #[trigger] resource_map(n).contains_key(k) == resource_map(rs).remove(gone).contains_key(k) by {
        if resource_map(n).contains_key(k) {
            let j = choose|j: int| 0 <= j < n.len() && n[j].key == k;
            let j2 = if j < i { j } else { j + 1 };
            assert(rs[j2].key == k);
            assert(j2 != i);
        }
        if resource_map(rs).contains_key(k) && k != gone {
            let j = choose|j: int| 0 <= j < rs.len() && rs[j].key == k;
            assert(j != i);
            let j2 = if j < i { j } else { j - 1 };
            assert(n[j2].key == k);
        }
    }
    assert forall|k: Seq<char>| #[trigger] resource_map(n).contains_key(k) implies resource_map(n)[k] == resource_map(rs).remove(gone)[k] by {
        let j = choose|j: int| 0 <= j < n.len() && n[j].key == k;
        let j2 = if j < i { j } else { j + 1 };
        assert(rs[j2] == n[j]);
        lemma_resource_at(n, j);
        lemma_resource_at(rs, j2);
    }
    assert(resource_map(n) =~= resource_map(rs).remove(gone));
}

/// The abstract state of a [`ResourceStore`].
pub struct StoreView {
    /// Every snapshot ever written, in creation order; a snapshot's id is its position.
    pub configs: Seq<ConfigView>,
    /// Live resources by key.
    pub resources: Map<Seq<char>, ResourceView>,
}

impl StoreView {
    /// Snapshots of `key`, oldest first.
    pub open spec fn history(self, key: Seq<char>) -> Seq<ConfigView> {
        history_of(self.configs, key)
    }

    /// The snapshot the head of `key` points at.
    pub open spec fn head(self, key: Seq<char>) -> ConfigView {
        self.configs[self.resources[key].config_key as int]
    }

    /// The snapshot that a write of `payload` to `key` at `now` appends.
    pub open spec fn next_config(self, key: Seq<char>, payload: Seq<u8>, now: int) -> ConfigView {
        ConfigView {
            id: self.configs.len(),
            resource_key: key,
            version: self.history(key).len() + 1,
            payload,
            created_at: now,
        }
    }

    /// State after `key` is created with its first snapshot.
    pub open spec fn created(self, namespace: Seq<char>, key: Seq<char>, kind: Seq<char>, payload: Seq<u8>, now: int) -> StoreView {
        StoreView {
            configs: self.configs.push(self.next_config(key, payload, now)),
            resources: self.resources.insert(
                key,
                ResourceView { key, namespace, kind, config_key: self.configs.len(), created_at: now },
            ),
        }
    }

    /// State after a new snapshot of `key` is written and made its head.
    pub open spec fn patched(self, key: Seq<char>, payload: Seq<u8>, now: int) -> StoreView {
        StoreView {
            configs: self.configs.push(self.next_config(key, payload, now)),
            resources: self.resources.insert(
                key,
                ResourceView { config_key: self.configs.len(), ..self.resources[key] },
            ),
        }
    }

    /// State after the head of `key` is moved to snapshot `id`.
    pub open spec fn reverted(self, key: Seq<char>, id: nat) -> StoreView {
        StoreView {
            configs: self.configs,
            resources: self.resources.insert(key, ResourceView { config_key: id, ..self.resources[key] }),
        }
    }

    /// State after the live resource `key` is removed.
    pub open spec fn deleted(self, key: Seq<char>) -> StoreView {
        StoreView { configs: self.configs, resources: self.resources.remove(key) }
    }

    /// Snapshot ids are positions, versions of each key run 1, 2, 3, ... and
    /// every head points at a snapshot of its own resource.
    pub open spec fn valid(self) -> bool {
        &&& forall|i: int| 0 <= i < self.configs.len() ==> (#[trigger] self.configs[i]).id == i
        &&& forall|k: Seq<char>, j: int|
            0 <= j < self.history(k).len() ==> (#[trigger] self.history(k)[j]).version == j + 1
        &&& forall|k: Seq<char>|
            #[trigger] self.resources.contains_key(k) ==> self.resources[k].key == k
                && self.resources[k].config_key < self.configs.len()
                && self.configs[self.resources[k].config_key as int].resource_key == k
    }

    /// The arena cannot take another snapshot.
    pub open spec fn is_full(self) -> bool {
        self.configs.len() + 2 > usize::MAX
    }
}

/// In-memory transactional store of resources and their append-only history.
pub struct ResourceStore {
    configs: Vec<Config>,
    resources: Vec<ResourceDbModel>,
}

impl View for ResourceStore {
    type V = StoreView;

    closed spec fn view(&self) -> StoreView {
        StoreView {
            configs: self.configs@.map_values(|c: Config| c@),
            resources: resource_map(self.resources@.map_values(|r: ResourceDbModel| r@)),
        }
    }
}

impl ResourceStore {
    spec fn rviews(&self) -> Seq<ResourceView> {
        self.resources@.map_values(|r: ResourceDbModel| r@)
    }

    spec fn cviews(&self) -> Seq<ConfigView> {
        self.configs@.map_values(|c: Config| c@)
    }

    /// Internal consistency of the store.
    pub closed spec fn wf(&self) -> bool {
        let cs = self.cviews();
        let rs = self.rviews();
        &&& forall|i: int| 0 <= i < cs.len() ==> (#[trigger] cs[i]).id == i
        &&& forall|k: Seq<char>, j: int|
            0 <= j < history_of(cs, k).len() ==> (#[trigger] history_of(cs, k)[j]).version == j + 1
        &&& unique_keys(rs)
        &&& forall|i: int|
            0 <= i < rs.len() ==> (#[trigger] rs[i]).config_key < cs.len()
                && cs[rs[i].config_key as int].resource_key == rs[i].key
    }

    pub fn new() -> (r: ResourceStore)
        ensures
            r.wf(),
            r@.configs.len() == 0,
            r@.resources.is_empty(),
    {
        let r = ResourceStore { configs: Vec::new(), resources: Vec::new() };
        assert(r@.resources =~= Map::empty());
        r
    }

    proof fn lemma_view(&self)
        requires
            self.wf(),
        ensures
            forall|i: int|
                0 <= i < self.resources@.len() ==> self@.resources.contains_key(
                    #[trigger] self.resources@[i].key@,
                ) && self@.resources[self.resources@[i].key@] == self.resources@[i]@,
            forall|k: Seq<char>|
                #[trigger] self@.resources.contains_key(k) ==> exists|i: int|
                    0 <= i < self.resources@.len() && self.resources@[i].key@ == k,
    {
        let rs = self.rviews();
        assert forall|i: int| 0 <= i < self.resources@.len() implies self@.resources.contains_key(
            #[trigger] self.resources@[i].key@,
        ) && self@.resources[self.resources@[i].key@] == self.resources@[i]@ by {
            lemma_resource_at(rs, i);
        }
        assert forall|k: Seq<char>| #[trigger] self@.resources.contains_key(k) implies exists|i: int|
            0 <= i < self.resources@.len() && self.resources@[i].key@ == k by {
            let i = choose|i: int| 0 <= i < rs.len() && rs[i].key == k;
            assert(self.resources@[i].key@ == k);
        }
    }

    /// The abstract state of a consistent store is valid.
    pub proof fn lemma_valid(&self)
        requires
            self.wf(),
        ensures
            self@.valid(),
    {
        self.lemma_view();
        assert forall|k: Seq<char>| #[trigger] self@.resources.contains_key(k) implies self@.resources[k].key == k
            && self@.resources[k].config_key < self@.configs.len()
            && self@.configs[self@.resources[k].config_key as int].resource_key == k by {
            let i = choose|i: int| 0 <= i < self.resources@.len() && self.resources@[i].key@ == k;
            assert(self.rviews()[i].key == k);
        }
        let v = self@;
        assert(v.configs == self.cviews());
        assert forall|k: Seq<char>, j: int| 0 <= j < v.history(k).len() implies (#[trigger] v.history(k)[j]).version == j + 1 by {
            assert(history_of(self.cviews(), k)[j].version == j + 1);
        }
        assert forall|i: int| 0 <= i < v.configs.len() implies (#[trigger] v.configs[i]).id == i by {
            assert(self.cviews()[i].id == i);
        }
    }

    /// Position of the live resource `key` in the table.
    fn find(&self, key: &String) -> (r: Option<usize>)
        requires
            self.wf(),
        ensures
            match r {
                Some(i) => i < self.resources@.len() && self.resources@[i as int].key@ == key@,
                None => !self@.resources.contains_key(key@),
            },
    {
        proof {
            self.lemma_view();
        }
        let mut i: usize = 0;
        while i < self.resources.len()
            invariant
                i <= self.resources@.len(),
                forall|j: int| 0 <= j < i ==> self.resources@[j].key@ != key@,
            decreases self.resources@.len() - i,
        {
            if self.resources[i].key == *key {
                return Some(i);
            }
            i = i + 1;
        }
        None
    }

    /// Number of snapshots stored for `key`.
    fn history_len(&self, key: &String) -> (r: usize)
        requires
            self.wf(),
        ensures
            r == self@.history(key@).len(),
    {
        let mut n: usize = 0;
        let mut i: usize = 0;
        while i < self.configs.len()
            invariant
                i <= self.configs@.len(),
                n == history_of(self.cviews().subrange(0, i as int), key@).len(),
                n <= i,
            decreases self.configs@.len() - i,
        {
            let ghost cs = self.cviews();
            proof {
                assert(cs.subrange(0, i + 1) =~= cs.subrange(0, i as int).push(cs[i as int]));
                lemma_history_push(cs.subrange(0, i as int), cs[i as int], key@);
            }
            if self.configs[i].resource_key == *key {
                n = n + 1;
            }
            i = i + 1;
        }
        assert(self.cviews().subrange(0, i as int) =~= self.cviews());
        n
    }
    /// Appends the next snapshot of `key`; the resource table is untouched.
    fn append(&mut self, key: &String, payload: Vec<u8>, now: i64) -> (id: usize)
        requires
            old(self).wf(),
            !old(self)@.is_full(),
        ensures
            final(self).wf(),
            id == old(self)@.configs.len(),
            final(self)@.configs == old(self)@.configs.push(old(self)@.next_config(key@, payload@, now as int)),
            final(self).resources@ == old(self).resources@,
    {
        let n = self.history_len(key);
        proof {
            lemma_history_len(self.cviews(), key@);
        }
        let id = self.configs.len();
        let c = Config { id, resource_key: key.clone(), version: n + 1, payload, created_at: now };
        let ghost old_cs = self.cviews();
        self.configs.push(c);
        proof {
            let cs = self.cviews();
            assert(cs =~= old_cs.push(c@));
            assert forall|k: Seq<char>, j: int|
                0 <= j < history_of(cs, k).len() implies (#[trigger] history_of(cs, k)[j]).version == j + 1 by {
                lemma_history_push(old_cs, c@, k);
                if j < history_of(old_cs, k).len() {
                    assert(history_of(cs, k)[j] == history_of(old_cs, k)[j]);
                }
            }
            let rs = self.rviews();
            assert forall|i: int| 0 <= i < rs.len() implies (#[trigger] rs[i]).config_key < cs.len()
                && cs[rs[i].config_key as int].resource_key == rs[i].key by {
                assert(cs[rs[i].config_key as int] == old_cs[rs[i].config_key as int]);
            }
        }
        id
    }

    /// Creates `key` with its first snapshot; fails with `Conflict` if `key` is live.
    /// A key created again after a delete continues its retained history, so its
    /// versions stay gap-free.
    pub fn create(&mut self, namespace: String, key: String, kind: String, payload: Vec<u8>, now: i64) -> (r: Result<ResourceDbModel, ErrorKind>)
        requires
            old(self).wf(),
        ensures
            final(self).wf(),
            old(self)@.resources.contains_key(key@) ==> r == Err::<ResourceDbModel, ErrorKind>(ErrorKind::Conflict) && final(self)@ == old(self)@,
            !old(self)@.resources.contains_key(key@) && old(self)@.is_full() ==> r == Err::<ResourceDbModel, ErrorKind>(ErrorKind::Store) && final(self)@ == old(self)@,
            !old(self)@.resources.contains_key(key@) && !old(self)@.is_full() ==> {
                &&& r is Ok
                &&& final(self)@ == old(self)@.created(namespace@, key@, kind@, payload@, now as int)
                &&& r->Ok_0@ == final(self)@.resources[key@]
            },
    {
        proof {
            self.lemma_view();
        }
        if self.find(&key).is_some() {
            return Err(ErrorKind::Conflict);
        }
        if self.configs.len() >= usize::MAX - 1 {
            return Err(ErrorKind::Store);
        }
        let ghost old_rs = self.rviews();
        let ghost key_v = key@;
        proof {
            assert forall|i: int| 0 <= i < old_rs.len() implies old_rs[i].key != key@ by {
                assert(self.resources@[i].key@ == old_rs[i].key);
            }
        }
        let id = self.append(&key, payload, now);
        let ghost mid_cs = self.cviews();
        assert(forall|i: int| 0 <= i < mid_cs.len() ==> (#[trigger] mid_cs[i]).id == i);
        let res = ResourceDbModel { key, namespace, kind, config_key: id, created_at: now };
        let out = res.duplicate();
        self.resources.push(res);
        proof {
            let rs = self.rviews();
            assert(rs =~= old_rs.push(res@));
            assert forall|i: int, j: int|
                0 <= i < rs.len() && 0 <= j < rs.len() && #[trigger] rs[i].key == #[trigger] rs[j].key
                implies i == j by {
                if i < old_rs.len() && j < old_rs.len() {
                    assert(old_rs[i].key == old_rs[j].key);
                }
            }
            lemma_map_push(old_rs, res@);
            let cs = self.cviews();
            assert forall|i: int| 0 <= i < rs.len() implies (#[trigger] rs[i]).config_key < cs.len()
                && cs[rs[i].config_key as int].resource_key == rs[i].key by {
                if i < old_rs.len() {
                    assert(rs[i] == old_rs[i]);
                } else {
                    assert(cs[id as int].resource_key == key_v);
                }
            }
            assert(cs == mid_cs);
        }
        Ok(out)
    }

    /// The live resource `key`.
    pub fn get(&self, key: &String) -> (r: Result<ResourceDbModel, ErrorKind>)
        requires
            self.wf(),
        ensures
            self@.resources.contains_key(key@) <==> r is Ok,
            r is Ok ==> r->Ok_0@ == self@.resources[key@],
            r is Err ==> r->Err_0 == ErrorKind::NotFound,
    {
        proof {
            self.lemma_view();
        }
        match self.find(key) {
            Some(i) => Ok(self.resources[i].duplicate()),
            None => Err(ErrorKind::NotFound),
        }
    }

    /// The snapshot that the head of `key` points at.
    pub fn head_config(&self, key: &String) -> (r: Result<Config, ErrorKind>)
        requires
            self.wf(),
        ensures
            self@.resources.contains_key(key@) <==> r is Ok,
            r is Ok ==> r->Ok_0@ == self@.head(key@),
            r is Err ==> r->Err_0 == ErrorKind::NotFound,
    {
        proof {
            self.lemma_view();
        }
        match self.find(key) {
            Some(i) => {
                let id = self.resources[i].config_key;
                proof {
                    assert(self.rviews()[i as int].config_key == id);
                }
                Ok(self.configs[id].duplicate())
            },
            None => Err(ErrorKind::NotFound),
        }
    }

    /// Writes the next snapshot of `key` and moves its head there.
    pub fn patch(&mut self, key: &String, payload: Vec<u8>, now: i64) -> (r: Result<ResourceDbModel, ErrorKind>)
        requires
            old(self).wf(),
        ensures
            final(self).wf(),
            !old(self)@.resources.contains_key(key@) ==> r == Err::<ResourceDbModel, ErrorKind>(ErrorKind::NotFound) && final(self)@ == old(self)@,
            old(self)@.resources.contains_key(key@) && old(self)@.is_full() ==> r == Err::<ResourceDbModel, ErrorKind>(ErrorKind::Store) && final(self)@ == old(self)@,
            old(self)@.resources.contains_key(key@) && !old(self)@.is_full() ==> {
                &&& r is Ok
                &&& final(self)@ == old(self)@.patched(key@, payload@, now as int)
                &&& r->Ok_0@ == final(self)@.resources[key@]
            },
    {
        proof {
            self.lemma_view();
        }
        let i = match self.find(key) {
            Some(i) => i,
            None => return Err(ErrorKind::NotFound),
        };
        if self.configs.len() >= usize::MAX - 1 {
            return Err(ErrorKind::Store);
        }
        let ghost old_rs = self.rviews();
        let id = self.append(key, payload, now);
        self.resources[i].config_key = id;
        proof {
            let rs = self.rviews();
            assert(rs =~= old_rs.update(i as int, rs[i as int]));
            lemma_map_update(old_rs, i as int, rs[i as int]);
            let cs = self.cviews();
            assert forall|j: int| 0 <= j < rs.len() implies (#[trigger] rs[j]).config_key < cs.len()
                && cs[rs[j].config_key as int].resource_key == rs[j].key by {
                if j != i {
                    assert(rs[j] == old_rs[j]);
                }
            }
        }
        Ok(self.resources[i].duplicate())
    }

    /// Removes the live resource `key`; its snapshots stay in the history.
    pub fn delete(&mut self, key: &String) -> (r: Result<(), ErrorKind>)
        requires
            old(self).wf(),
        ensures
            final(self).wf(),
            old(self)@.resources.contains_key(key@) <==> r is Ok,
            r is Ok ==> final(self)@ == old(self)@.deleted(key@),
            r is Err ==> r->Err_0 == ErrorKind::NotFound && final(self)@ == old(self)@,
    {
        proof {
            self.lemma_view();
        }
        let i = match self.find(key) {
            Some(i) => i,
            None => return Err(ErrorKind::NotFound),
        };
        let ghost old_rs = self.rviews();
        self.resources.remove(i);
        proof {
            let rs = self.rviews();
            assert(rs =~= old_rs.remove(i as int));
            lemma_map_remove(old_rs, i as int);
            assert forall|j: int| 0 <= j < rs.len() implies (#[trigger] rs[j]).config_key < self.cviews().len()
                && self.cviews()[rs[j].config_key as int].resource_key == rs[j].key by {
                if j < i {
                    assert(rs[j] == old_rs[j]);
                } else {
                    assert(rs[j] == old_rs[j + 1]);
                }
            }
        }
        Ok(())
    }

    /// Moves the head of `key` to the existing snapshot `id` without writing a new one.
    pub fn revert(&mut self, key: &String, id: usize) -> (r: Result<ResourceDbModel, ErrorKind>)
        requires
            old(self).wf(),
        ensures
            final(self).wf(),
            r == Err::<ResourceDbModel, ErrorKind>(ErrorKind::NotFound) <==> !old(self)@.resources.contains_key(key@)
                || id >= old(self)@.configs.len(),
            r == Err::<ResourceDbModel, ErrorKind>(ErrorKind::Conflict) <==> old(self)@.resources.contains_key(key@)
                && id < old(self)@.configs.len() && old(self)@.configs[id as int].resource_key != key@,
            r is Err ==> final(self)@ == old(self)@,
            old(self)@.resources.contains_key(key@) && id < old(self)@.configs.len() && old(self)@.configs[id as int].resource_key
                == key@ ==> r is Ok,
            r is Ok ==> final(self)@ == old(self)@.reverted(key@, id as nat) && r->Ok_0@ == final(self)@.resources[key@],
    {
        proof {
            self.lemma_view();
        }
        let i = match self.find(key) {
            Some(i) => i,
            None => return Err(ErrorKind::NotFound),
        };
        if id >= self.configs.len() {
            return Err(ErrorKind::NotFound);
        }
        if self.configs[id].resource_key != *key {
            return Err(ErrorKind::Conflict);
        }
        let ghost old_rs = self.rviews();
        self.resources[i].config_key = id;
        proof {
            let rs = self.rviews();
            assert(rs =~= old_rs.update(i as int, rs[i as int]));
            lemma_map_update(old_rs, i as int, rs[i as int]);
            let cs = self.cviews();
            assert forall|j: int| 0 <= j < rs.len() implies (#[trigger] rs[j]).config_key < cs.len()
                && cs[rs[j].config_key as int].resource_key == rs[j].key by {
                if j != i {
                    assert(rs[j] == old_rs[j]);
                }
            }
        }
        Ok(self.resources[i].duplicate())
    }
    /// Snapshots of `key`, newest first; `NotFound` when the key never existed.
    pub fn history(&self, key: &String) -> (r: Result<Vec<Config>, ErrorKind>)
        requires
            self.wf(),
        ensures
            r is Err <==> self@.history(key@).len() == 0,
            r is Err ==> r->Err_0 == ErrorKind::NotFound,
            r is Ok ==> r->Ok_0@.map_values(|c: Config| c@) == newest_first(self@.history(key@)),
    {
        let ghost cs = self.cviews();
        let mut fwd: Vec<Config> = Vec::new();
        let mut i: usize = 0;
        while i < self.configs.len()
            invariant
                cs == self.cviews(),
                i <= self.configs@.len(),
                fwd@.map_values(|c: Config| c@) == history_of(cs.subrange(0, i as int), key@),
            decreases self.configs@.len() - i,
        {
            proof {
                assert(cs.subrange(0, i + 1) =~= cs.subrange(0, i as int).push(cs[i as int]));
                lemma_history_push(cs.subrange(0, i as int), cs[i as int], key@);
            }
            if self.configs[i].resource_key == *key {
                let c = self.configs[i].duplicate();
                let ghost prev = fwd@;
                fwd.push(c);
                assert(fwd@.map_values(|c: Config| c@) =~= prev.map_values(|c: Config| c@).push(c@));
            }
            i = i + 1;
        }
        assert(cs.subrange(0, i as int) =~= cs);
        if fwd.len() == 0 {
            return Err(ErrorKind::NotFound);
        }
        let ghost h = fwd@.map_values(|c: Config| c@);
        let mut out: Vec<Config> = Vec::new();
        let mut j: usize = fwd.len();
        while j > 0
            invariant
                j <= fwd@.len(),
                h == fwd@.map_values(|c: Config| c@),
                out@.map_values(|c: Config| c@) == newest_first(h).subrange(0, h.len() - j),
            decreases j,
        {
            j = j - 1;
            let c = fwd[j].duplicate();
            let ghost prev = out@;
            out.push(c);
            proof {
                let o = out@.map_values(|c: Config| c@);
                let t = newest_first(h).subrange(0, h.len() - j);
                assert(c@ == h[j as int]);
                assert(prev.map_values(|c: Config| c@).len() == prev.len());
                assert(out@ == prev.push(c));
                assert(o.len() == t.len());
                assert forall|k: int| 0 <= k < o.len() implies o[k] == t[k] by {
                    if k < o.len() - 1 {
                        assert(o[k] == prev.map_values(|c: Config| c@)[k]);
                    }
                }
                assert(o =~= t);
            }
        }
        assert(newest_first(h).subrange(0, h.len() as int) =~= newest_first(h));
        Ok(out)
    }
    /// Keys of the live resources that belong to `namespace`.
    pub fn keys_in_namespace(&self, namespace: &String) -> (r: Vec<String>)
        requires
            self.wf(),
        ensures
            forall|j: int| 0 <= j < r@.len() ==> self@.resources.contains_key(#[trigger] r@[j]@)
                && self@.resources[r@[j]@].namespace == namespace@,
            forall|k: Seq<char>|
                #[trigger] self@.resources.contains_key(k) && self@.resources[k].namespace == namespace@
                    ==> exists|j: int| 0 <= j < r@.len() && r@[j]@ == k,
    {
        proof {
            self.lemma_view();
        }
        let mut out: Vec<String> = Vec::new();
        let mut i: usize = 0;
        while i < self.resources.len()
            invariant
                self.wf(),
                i <= self.resources@.len(),
                forall|j: int| 0 <= j < out@.len() ==> self@.resources.contains_key(#[trigger] out@[j]@)
                    && self@.resources[out@[j]@].namespace == namespace@,
                forall|m: int|
                    0 <= m < i && (#[trigger] self.resources@[m]).namespace@ == namespace@ ==> exists|j: int|
                        0 <= j < out@.len() && out@[j]@ == self.resources@[m].key@,
            decreases self.resources@.len() - i,
        {
            proof {
                self.lemma_view();
            }
            if self.resources[i].namespace == *namespace {
                let ghost prev = out@;
                out.push(self.resources[i].key.clone());
                assert(out@[prev.len() as int]@ == self.resources@[i as int].key@);
                assert(self@.resources[self.resources@[i as int].key@] == self.resources@[i as int]@);
                assert forall|j: int| 0 <= j < out@.len() implies self@.resources.contains_key(#[trigger] out@[j]@)
                    && self@.resources[out@[j]@].namespace == namespace@ by {
                    if j < prev.len() {
                        assert(out@[j] == prev[j]);
                    }
                }
                assert forall|m: int|
                    0 <= m < i + 1 && (#[trigger] self.resources@[m]).namespace@ == namespace@ implies exists|j: int|
                        0 <= j < out@.len() && out@[j]@ == self.resources@[m].key@ by {
                    if m < i {
                        let j = choose|j: int| 0 <= j < prev.len() && prev[j]@ == self.resources@[m].key@;
                        assert(out@[j] == prev[j]);
                    }
                }
            }
            i = i + 1;
        }
        proof {
            assert forall|k: Seq<char>|
                #[trigger] self@.resources.contains_key(k) && self@.resources[k].namespace == namespace@
                    implies exists|j: int| 0 <= j < out@.len() && out@[j]@ == k by {
                let m = choose|m: int| 0 <= m < self.resources@.len() && self.resources@[m].key@ == k;
                assert(self@.resources[self.resources@[m].key@] == self.resources@[m]@);
                assert(self.resources@[m].namespace@ == namespace@);
            }
        }
        out
    }
    /// The snapshot with identifier `id`, live or orphaned.
    pub fn config_at(&self, id: usize) -> (r: Option<Config>)
        requires
            self.wf(),
        ensures
            id < self@.configs.len() <==> r is Some,
            r is Some ==> r->Some_0@ == self@.configs[id as int],
    {
        if id < self.configs.len() {
            Some(self.configs[id].duplicate())
        } else {
            None
        }
    }
    /// The live resources of kind `kind`: what a kind controller rebuilds its artifact from.
    pub fn resources_of_kind(&self, kind: &String) -> (r: Vec<ResourceDbModel>)
        requires
            self.wf(),
        ensures
            forall|j: int| 0 <= j < r@.len() ==> self@.resources.contains_key((#[trigger] r@[j])@.key)
                && self@.resources[r@[j]@.key] == r@[j]@ && r@[j]@.kind == kind@,
            forall|k: Seq<char>|
                #[trigger] self@.resources.contains_key(k) && self@.resources[k].kind == kind@
                    ==> exists|j: int| 0 <= j < r@.len() && r@[j]@.key == k,
    {
        let mut out: Vec<ResourceDbModel> = Vec::new();
        let mut i: usize = 0;
        while i < self.resources.len()
            invariant
                self.wf(),
                i <= self.resources@.len(),
                forall|j: int| 0 <= j < out@.len() ==> self@.resources.contains_key((#[trigger] out@[j])@.key)
                    && self@.resources[out@[j]@.key] == out@[j]@ && out@[j]@.kind == kind@,
                forall|m: int|
                    0 <= m < i && (#[trigger] self.resources@[m]).kind@ == kind@ ==> exists|j: int|
                        0 <= j < out@.len() && out@[j]@.key == self.resources@[m].key@,
            decreases self.resources@.len() - i,
        {
            proof {
                self.lemma_view();
            }
            if self.resources[i].kind == *kind {
                let ghost prev = out@;
                out.push(self.resources[i].duplicate());
                assert(out@[prev.len() as int]@ == self.resources@[i as int]@);
                assert forall|j: int| 0 <= j < out@.len() implies self@.resources.contains_key((#[trigger] out@[j])@.key)
                    && self@.resources[out@[j]@.key] == out@[j]@ && out@[j]@.kind == kind@ by {
                    if j < prev.len() {
                        assert(out@[j] == prev[j]);
                    }
                }
                assert forall|m: int|
                    0 <= m < i + 1 && (#[trigger] self.resources@[m]).kind@ == kind@ implies exists|j: int|
                        0 <= j < out@.len() && out@[j]@.key == self.resources@[m].key@ by {
                    if m < i {
                        let j = choose|j: int| 0 <= j < prev.len() && prev[j]@.key == self.resources@[m].key@;
                        assert(out@[j] == prev[j]);
                    }
                }
            }
            i = i + 1;
        }
        proof {
            self.lemma_view();
            assert forall|k: Seq<char>|
                #[trigger] self@.resources.contains_key(k) && self@.resources[k].kind == kind@
                    implies exists|j: int| 0 <= j < out@.len() && out@[j]@.key == k by {
                let m = choose|m: int| 0 <= m < self.resources@.len() && self.resources@[m].key@ == k;
                assert(self.resources@[m].kind@ == kind@);
            }
        }
        out
    }
    /// Keys of all live resources.
    pub fn keys(&self) -> (r: Vec<String>)
        requires
            self.wf(),
        ensures
            forall|j: int| 0 <= j < r@.len() ==> self@.resources.contains_key(#[trigger] r@[j]@),
            forall|k: Seq<char>| #[trigger] self@.resources.contains_key(k) ==> exists|j: int| 0 <= j < r@.len() && r@[j]@ == k,
    {
        let mut out: Vec<String> = Vec::new();
        let mut i: usize = 0;
        while i < self.resources.len()
            invariant
                self.wf(),
                i <= self.resources@.len(),
                forall|j: int| 0 <= j < out@.len() ==> self@.resources.contains_key(#[trigger] out@[j]@),
                forall|m: int| 0 <= m < i ==> exists|j: int| 0 <= j < out@.len() && out@[j]@ == (#[trigger] self.resources@[m]).key@,
            decreases self.resources@.len() - i,
        {
            proof {
                self.lemma_view();
            }
            let ghost prev = out@;
            out.push(self.resources[i].key.clone());
            assert(out@[prev.len() as int]@ == self.resources@[i as int].key@);
            assert forall|j: int| 0 <= j < out@.len() implies self@.resources.contains_key(#[trigger] out@[j]@) by {
                if j < prev.len() {
                    assert(out@[j] == prev[j]);
                }
            }
            assert forall|m: int| 0 <= m < i + 1 implies exists|j: int| 0 <= j < out@.len() && out@[j]@ == (#[trigger] self.resources@[m]).key@ by {
                if m < i {
                    let j = choose|j: int| 0 <= j < prev.len() && prev[j]@ == self.resources@[m].key@;
                    assert(out@[j] == prev[j]);
                }
            }
            i = i + 1;
        }
        proof {
            self.lemma_view();
            assert forall|k: Seq<char>| #[trigger] self@.resources.contains_key(k) implies exists|j: int| 0 <= j < out@.len() && out@[j]@ == k by {
                let m = choose|m: int| 0 <= m < self.resources@.len() && self.resources@[m].key@ == k;
                assert(exists|j: int| 0 <= j < out@.len() && out@[j]@ == self.resources@[m].key@);
            }
        }
        out
    }
}

} // verus!
