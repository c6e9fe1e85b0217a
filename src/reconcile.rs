use vstd::prelude::*;

use crate::engine::DaemonState;
use crate::error::ErrorKind;
use crate::events::EventView;
use crate::store::{bytes_equal, copy_bytes, ConfigView, StoreView};

verus! {

/// A namespace the state file wants; with `prune` off, undeclared resources in it are kept.
pub struct NamespaceSpec {
    pub name: String,
    pub prune: bool,
}

/// A resource the state file wants.
pub struct ResourceSpec {
    pub namespace: String,
    pub name: String,
    pub kind: String,
    pub payload: Vec<u8>,
}

/// Desired state: namespaces first, then the resources that live in them.
pub struct StateFile {
    pub namespaces: Vec<NamespaceSpec>,
    pub resources: Vec<ResourceSpec>,
}

/// What an apply did to one entity.
#[derive(Debug, Clone, Copy, PartialEq, Eq, Structural)]
pub enum Outcome {
    Created,
    Patched,
    Deleted,
    Unchanged,
    Failed(ErrorKind),
}

pub struct ItemReport {
    pub name: String,
    pub outcome: Outcome,
}

/// Per-entity outcomes of one apply, by phase.
pub struct ApplyReport {
    pub namespaces: Vec<ItemReport>,
    pub resources: Vec<ItemReport>,
    pub pruned: Vec<ItemReport>,
}

pub open spec fn declares(file: &StateFile, k: Seq<char>) -> bool {
    exists|i: int| 0 <= i < file.resources@.len() && (#[trigger] file.resources@[i]).name@ == k
}

/// The file lists namespace `ns` with pruning switched off.
pub open spec fn prune_disabled(file: &StateFile, ns: Seq<char>) -> bool {
    exists|a: int|
        0 <= a < file.namespaces@.len() && !(#[trigger] file.namespaces@[a]).prune && file.namespaces@[a].name@ == ns
}

/// Undeclared resources of `ns` are deleted by an apply of `file`.
pub open spec fn prunes(file: &StateFile, ns: Seq<char>) -> bool {
    !prune_disabled(file, ns)
}

/// No resource entry before position `n` is named `k`.
pub open spec fn not_among_first(file: &StateFile, n: int, k: Seq<char>) -> bool {
    forall|j: int| 0 <= j < n ==> (#[trigger] file.resources@[j]).name@ != k
}

/// Entry `i` is the first one with its name; later entries with that name are rejected.
pub open spec fn first_entry(file: &StateFile, i: int) -> bool {
    not_among_first(file, i, file.resources@[i].name@)
}

/// The resource `r` is live in `s` with exactly the wanted payload.
pub open spec fn item_in_sync(s: StoreView, r: ResourceSpec) -> bool {
    s.resources.contains_key(r.name@) && s.head(r.name@).payload == r.payload@
}

/// Every live resource of a pruned namespace is declared by `file`.
pub open spec fn prune_clean(s: StoreView, file: &StateFile) -> bool {
    forall|k: Seq<char>|
        #[trigger] s.resources.contains_key(k) && prunes(file, s.resources[k].namespace) ==> declares(file, k)
}

/// `s` already holds everything `file` asks of the store.
pub open spec fn in_sync(s: StoreView, file: &StateFile) -> bool {
    &&& forall|i: int| 0 <= i < file.resources@.len() && first_entry(file, i) ==> item_in_sync(s, #[trigger] file.resources@[i])
    &&& prune_clean(s, file)
}

/// The store has room for one new snapshot per entry of `file`.
pub open spec fn has_room(s: StoreView, file: &StateFile) -> bool {
    s.configs.len() + file.resources@.len() + 2 <= usize::MAX
}

/// The outcome entry `i` gets, judged against the store before the apply.
pub open spec fn expected_outcome(s: StoreView, file: &StateFile, i: int, o: Outcome) -> bool {
    let r = file.resources@[i];
    if !first_entry(file, i) {
        o == Outcome::Failed(ErrorKind::Conflict)
    } else if !s.resources.contains_key(r.name@) {
        o == Outcome::Created || o == Outcome::Failed(ErrorKind::Store)
    } else if s.head(r.name@).payload == r.payload@ {
        o == Outcome::Unchanged
    } else {
        o == Outcome::Patched || o == Outcome::Failed(ErrorKind::Store)
    }
}

pub open spec fn configs_extend(a: Seq<ConfigView>, b: Seq<ConfigView>) -> bool {
    a.len() <= b.len() && forall|m: int| 0 <= m < a.len() ==> #[trigger] b[m] == a[m]
}

/// No first entry among the first `n` of the report failed.
pub open spec fn settled(file: &StateFile, report: Seq<ItemReport>, n: int) -> bool {
    forall|i: int| 0 <= i < n && first_entry(file, i) ==> !((#[trigger] report[i]).outcome is Failed)
}

/// Live resources of `s` are live in `t` with the same value.
pub open spec fn shrunk_from(s: StoreView, t: StoreView) -> bool {
    forall|k: Seq<char>| #[trigger] s.resources.contains_key(k) ==> t.resources.contains_key(k) && s.resources[k] == t.resources[k]
}

/// `k` is live in `s`, in a pruned namespace, and `file` does not declare it.
pub open spec fn prune_target(s: StoreView, file: &StateFile, k: Seq<char>) -> bool {
    s.resources.contains_key(k) && prunes(file, s.resources[k].namespace) && !declares(file, k)
}

/// None of the first `n` keys is still a prune target in `s`.
pub open spec fn handled(keys: Seq<String>, n: int, file: &StateFile, s: StoreView) -> bool {
    forall|c: int| 0 <= c < n ==> !prune_target(s, file, (#[trigger] keys[c])@)
}

/// What one apply of `file` guarantees, from store `s0` and event log `b0`
/// to store `s1` and event log `b1`.
pub open spec fn apply_outcome(
    s0: StoreView,
    b0: Seq<EventView>,
    file: &StateFile,
    s1: StoreView,
    b1: Seq<EventView>,
    report: ApplyReport,
) -> bool {
    &&& report.resources@.len() == file.resources@.len()
    &&& forall|i: int| 0 <= i < report.resources@.len() ==> (#[trigger] report.resources@[i]).name@ == file.resources@[i].name@
    &&& forall|i: int|
        0 <= i < report.resources@.len() ==> expected_outcome(s0, file, i, (#[trigger] report.resources@[i]).outcome)
    &&& has_room(s0, file) ==> settled(file, report.resources@, file.resources@.len() as int)
    &&& forall|j: int| 0 <= j < report.pruned@.len() ==> (#[trigger] report.pruned@[j]).outcome == Outcome::Deleted
        || report.pruned@[j].outcome == Outcome::Failed(ErrorKind::NotFound)
    &&& forall|j: int| 0 <= j < report.pruned@.len() ==> prune_target(s0, file, (#[trigger] report.pruned@[j]).name@)
    &&& prune_clean(s1, file)
    &&& in_sync(s0, file) ==> {
        &&& s1 == s0
        &&& b1 == b0
        &&& report.pruned@.len() == 0
        &&& forall|i: int| 0 <= i < report.resources@.len() && first_entry(file, i)
            ==> (#[trigger] report.resources@[i]).outcome == Outcome::Unchanged
    }
    &&& settled(file, report.resources@, file.resources@.len() as int) ==> in_sync(s1, file)
}

/// Whether `file` declares a resource named `key`.
pub fn is_declared(file: &StateFile, key: &String) -> (r: bool)
    ensures
        r == declares(file, key@),
{
    let mut i: usize = 0;
    while i < file.resources.len()
        invariant
            i <= file.resources@.len(),
            forall|j: int| 0 <= j < i ==> (#[trigger] file.resources@[j]).name@ != key@,
        decreases file.resources@.len() - i,
    {
        if file.resources[i].name == *key {
            return true;
        }
        i = i + 1;
    }
    false
}

/// Whether one of the first `n` resource entries is named `key`.
pub fn is_named_before(file: &StateFile, n: usize, key: &String) -> (r: bool)
    requires
        n <= file.resources@.len(),
    ensures
        r == !not_among_first(file, n as int, key@),
{
    let mut i: usize = 0;
    while i < n
        invariant
            i <= n <= file.resources@.len(),
            forall|j: int| 0 <= j < i ==> (#[trigger] file.resources@[j]).name@ != key@,
        decreases n - i,
    {
        if file.resources[i].name == *key {
            return true;
        }
        i = i + 1;
    }
    false
}

/// Whether `file` switches pruning off for namespace `ns`.
pub fn is_prune_disabled(file: &StateFile, ns: &String) -> (r: bool)
    ensures
        r == prune_disabled(file, ns@),
{
    let mut a: usize = 0;
    while a < file.namespaces.len()
        invariant
            a <= file.namespaces@.len(),
            forall|c: int| 0 <= c < a ==> !(#[trigger] file.namespaces@[c]).prune ==> file.namespaces@[c].name@ != ns@,
        decreases file.namespaces@.len() - a,
    {
        if !file.namespaces[a].prune && file.namespaces[a].name == *ns {
            return true;
        }
        a = a + 1;
    }
    false
}

impl DaemonState {
    /// Resource phase: creates missing entries and patches those whose payload differs.
    /// An entry whose name an earlier entry already used is rejected with `Conflict`.
    fn sync_resources(&mut self, file: &StateFile, now: i64) -> (report: Vec<ItemReport>)
        requires
            old(self).wf(),
        ensures
            final(self).wf(),
            final(self).namespaces == old(self).namespaces,
            report@.len() == file.resources@.len(),
            forall|i: int| 0 <= i < report@.len() ==> (#[trigger] report@[i]).name@ == file.resources@[i].name@,
            forall|k: Seq<char>|
                !declares(file, k) ==> (#[trigger] final(self).store@.resources.contains_key(k)
                    == old(self).store@.resources.contains_key(k)) && (old(self).store@.resources.contains_key(k)
                    ==> final(self).store@.resources[k] == old(self).store@.resources[k]),
            configs_extend(old(self).store@.configs, final(self).store@.configs),
            forall|i: int|
                0 <= i < report@.len() ==> expected_outcome(old(self).store@, file, i, (#[trigger] report@[i]).outcome),
            has_room(old(self).store@, file) ==> settled(file, report@, report@.len() as int),
            forall|i: int|
                0 <= i < report@.len() && first_entry(file, i) && !((#[trigger] report@[i]).outcome is Failed) ==> item_in_sync(
                    final(self).store@,
                    file.resources@[i],
                ),
            in_sync(old(self).store@, file) ==> final(self).store@ == old(self).store@ && final(self).bus@
                == old(self).bus@ && forall|i: int| 0 <= i < report@.len() && first_entry(file, i)
                ==> (#[trigger] report@[i]).outcome == Outcome::Unchanged,
    {
        let ghost s0 = self.store@;
        let ghost b0 = self.bus@;
        proof {
            self.store.lemma_valid();
        }
        let mut report: Vec<ItemReport> = Vec::new();
        let mut i: usize = 0;
        while i < file.resources.len()
            invariant
                self.wf(),
                s0.valid(),
                self.namespaces == old(self).namespaces,
                s0 == old(self).store@,
                b0 == old(self).bus@,
                i <= file.resources@.len(),
                report@.len() == i,
                self.store@.configs.len() <= s0.configs.len() + i,
                forall|j: int| 0 <= j < i ==> (#[trigger] report@[j]).name@ == file.resources@[j].name@,
                forall|k: Seq<char>|
                    not_among_first(file, i as int, k) ==> (
                    #[trigger] self.store@.resources.contains_key(k) == s0.resources.contains_key(k)) && (
                    s0.resources.contains_key(k) ==> self.store@.resources[k] == s0.resources[k]),
                configs_extend(s0.configs, self.store@.configs),
                forall|j: int| 0 <= j < i ==> expected_outcome(s0, file, j, (#[trigger] report@[j]).outcome),
                has_room(s0, file) ==> settled(file, report@, i as int),
                forall|j: int|
                    0 <= j < i && first_entry(file, j) && !((#[trigger] report@[j]).outcome is Failed) ==> item_in_sync(
                        self.store@,
                        file.resources@[j],
                    ),
                in_sync(s0, file) ==> self.store@ == s0 && self.bus@ == b0 && forall|j: int|
                    0 <= j < i && first_entry(file, j) ==> (#[trigger] report@[j]).outcome == Outcome::Unchanged,
            decreases file.resources@.len() - i,
        {
            let want = &file.resources[i];
            let ghost s1 = self.store@;
            let ghost b1 = self.bus@;
            let ghost name = want.name@;
            proof {
                self.store.lemma_valid();
            }
            let repeated = is_named_before(file, i, &want.name);
            let outcome = if repeated {
                Outcome::Failed(ErrorKind::Conflict)
            } else {
                proof {
                    assert(first_entry(file, i as int));
                    assert(s1.resources.contains_key(name) == s0.resources.contains_key(name));
                    if s0.resources.contains_key(name) {
                        assert(s1.resources[name] == s0.resources[name]);
                        assert(s1.head(name) == s0.head(name));
                    }
                    if in_sync(s0, file) {
                        assert(item_in_sync(s0, file.resources@[i as int]));
                    }
                }
                match self.store.head_config(&want.name) {
                    Ok(c) => {
                        if bytes_equal(&c.payload, &want.payload) {
                            Outcome::Unchanged
                        } else {
                            match self.patch_resource(&want.name, copy_bytes(&want.payload), now) {
                                Ok(_) => Outcome::Patched,
                                Err(e) => Outcome::Failed(e),
                            }
                        }
                    },
                    Err(_) => {
                        match self.create_resource(
                            want.namespace.clone(),
                            want.name.clone(),
                            want.kind.clone(),
                            copy_bytes(&want.payload),
                            now,
                        ) {
                            Ok(_) => Outcome::Created,
                            Err(e) => Outcome::Failed(e),
                        }
                    },
                }
            };
            let ghost prev = report@;
            report.push(ItemReport { name: want.name.clone(), outcome });
            proof {
                let s2 = self.store@;
                if repeated {
                    assert(s2 == s1);
                    assert(!first_entry(file, i as int));
                }
                assert(forall|k: Seq<char>| k != name ==> (#[trigger] s2.resources.contains_key(k) == s1.resources.contains_key(k)) && (s1.resources.contains_key(k) ==> s2.resources[k] == s1.resources[k]));
                assert(configs_extend(s1.configs, s2.configs));
                assert forall|j: int| 0 <= j <= i implies (#[trigger] report@[j]).name@ == file.resources@[j].name@ by {
                    if j < i {
                        assert(report@[j] == prev[j]);
                    }
                }
                assert forall|k: Seq<char>|
                    not_among_first(file, i + 1, k) implies (
                    #[trigger] self.store@.resources.contains_key(k) == s0.resources.contains_key(k)) && (
                    s0.resources.contains_key(k) ==> self.store@.resources[k] == s0.resources[k]) by {
                    assert(file.resources@[i as int].name@ != k);
                    assert(not_among_first(file, i as int, k));
                    assert(s1.resources.contains_key(k) == s0.resources.contains_key(k));
                    assert(s2.resources.contains_key(k) == s1.resources.contains_key(k));
                    if s0.resources.contains_key(k) {
                        assert(s1.resources[k] == s0.resources[k]);
                        assert(s2.resources[k] == s1.resources[k]);
                    }
                }
                assert forall|j: int| 0 <= j < i + 1 implies expected_outcome(s0, file, j, (#[trigger] report@[j]).outcome) by {
                    if j < i {
                        assert(report@[j] == prev[j]);
                    }
                }
                if has_room(s0, file) {
                    assert(!s1.is_full());
                    assert forall|j: int| 0 <= j < i + 1 && first_entry(file, j) implies !((#[trigger] report@[j]).outcome is Failed) by {
                        if j < i {
                            assert(report@[j] == prev[j]);
                        }
                    }
                }
                assert forall|j: int| 0 <= j < i + 1 && first_entry(file, j) && !((#[trigger] report@[j]).outcome is Failed) implies item_in_sync(
                    s2,
                    file.resources@[j],
                ) by {
                    if j < i {
                        assert(report@[j] == prev[j]);
                        let nj = file.resources@[j].name@;
                        assert(item_in_sync(s1, file.resources@[j]));
                        if !repeated {
                            assert(nj != name);
                            assert(s2.resources[nj] == s1.resources[nj]);
                            assert(s2.head(nj) == s1.head(nj));
                        }
                    }
                }
                if in_sync(s0, file) {
                    assert forall|j: int| 0 <= j < i + 1 && first_entry(file, j) implies (#[trigger] report@[j]).outcome == Outcome::Unchanged by {
                        if j < i {
                            assert(report@[j] == prev[j]);
                        }
                    }
                }
            }
            i = i + 1;
        }
        proof {
            assert forall|k: Seq<char>| !declares(file, k) implies (#[trigger] self.store@.resources.contains_key(k)
                == s0.resources.contains_key(k)) && (s0.resources.contains_key(k) ==> self.store@.resources[k] == s0.resources[k]) by {
                assert forall|j: int| 0 <= j < i implies (#[trigger] file.resources@[j]).name@ != k by {
                    if file.resources@[j].name@ == k {
                        assert(declares(file, k));
                    }
                }
                assert(not_among_first(file, i as int, k));
            }
        }
        report
    }

    /// Prune phase: deletes every live resource that `file` does not declare, unless
    /// the file switches pruning off for its namespace.
    fn prune_undeclared(&mut self, file: &StateFile, now: i64) -> (report: Vec<ItemReport>)
        requires
            old(self).wf(),
        ensures
            final(self).wf(),
            final(self).namespaces == old(self).namespaces,
            final(self).store@.configs == old(self).store@.configs,
            shrunk_from(final(self).store@, old(self).store@),
            forall|k: Seq<char>|
                declares(file, k) ==> (#[trigger] final(self).store@.resources.contains_key(k)
                    == old(self).store@.resources.contains_key(k)),
            prune_clean(final(self).store@, file),
            prune_clean(old(self).store@, file) ==> final(self).store@ == old(self).store@ && final(self).bus@
                == old(self).bus@ && report@.len() == 0,
            forall|j: int| 0 <= j < report@.len() ==> (#[trigger] report@[j]).outcome == Outcome::Deleted
                || report@[j].outcome == Outcome::Failed(ErrorKind::NotFound),
            forall|j: int| 0 <= j < report@.len() ==> prune_target(old(self).store@, file, (#[trigger] report@[j]).name@),
    {
        let ghost s0 = self.store@;
        let ghost b0 = self.bus@;
        let keys = self.store.keys();
        let mut report: Vec<ItemReport> = Vec::new();
        let mut b: usize = 0;
        while b < keys.len()
            invariant
                self.wf(),
                self.namespaces == old(self).namespaces,
                s0 == old(self).store@,
                b0 == old(self).bus@,
                b <= keys@.len(),
                self.store@.configs == s0.configs,
                shrunk_from(self.store@, s0),
                forall|k: Seq<char>|
                    declares(file, k) ==> (#[trigger] self.store@.resources.contains_key(k) == s0.resources.contains_key(k)),
                forall|k: Seq<char>|
                    #[trigger] s0.resources.contains_key(k) ==> exists|j: int| 0 <= j < keys@.len() && keys@[j]@ == k,
                handled(keys@, b as int, file, self.store@),
                prune_clean(s0, file) ==> self.store@ == s0 && self.bus@ == b0 && report@.len() == 0,
                forall|j: int| 0 <= j < report@.len() ==> (#[trigger] report@[j]).outcome == Outcome::Deleted
                    || report@[j].outcome == Outcome::Failed(ErrorKind::NotFound),
                forall|j: int| 0 <= j < report@.len() ==> prune_target(s0, file, (#[trigger] report@[j]).name@),
            decreases keys@.len() - b,
        {
            let key = &keys[b];
            let ghost s1 = self.store@;
            if let Ok(res) = self.store.get(key) {
                if !is_declared(file, key) && !is_prune_disabled(file, &res.namespace) {
                    proof {
                        assert(prune_target(s1, file, key@));
                        assert(prune_target(s0, file, key@));
                    }
                    let r = self.delete_resource(key, now);
                    let outcome = match r {
                        Ok(()) => Outcome::Deleted,
                        Err(e) => Outcome::Failed(e),
                    };
                    let ghost prev = report@;
                    report.push(ItemReport { name: key.clone(), outcome });
                    proof {
                        assert forall|j: int| 0 <= j < report@.len() implies (#[trigger] report@[j]).outcome == Outcome::Deleted
                            || report@[j].outcome == Outcome::Failed(ErrorKind::NotFound) by {
                            if j < prev.len() {
                                assert(report@[j] == prev[j]);
                            }
                        }
                        assert forall|j: int| 0 <= j < report@.len() implies prune_target(s0, file, (#[trigger] report@[j]).name@) by {
                            if j < prev.len() {
                                assert(report@[j] == prev[j]);
                            }
                        }
                    }
                }
            }
            proof {
                let s2 = self.store@;
                assert(shrunk_from(s2, s1));
                assert(!prune_target(s2, file, keys@[b as int]@));
                assert forall|c: int| 0 <= c < b + 1 implies !prune_target(s2, file, (#[trigger] keys@[c])@) by {
                    if c < b {
                        assert(!prune_target(s1, file, keys@[c]@));
                    }
                }
            }
            b = b + 1;
        }
        proof {
            let s2 = self.store@;
            assert forall|k: Seq<char>|
                #[trigger] s2.resources.contains_key(k) && prunes(file, s2.resources[k].namespace) implies declares(file, k) by {
                assert(s0.resources.contains_key(k));
                let c = choose|c: int| 0 <= c < keys@.len() && keys@[c]@ == k;
                assert(!prune_target(s2, file, keys@[c]@));
            }
        }
        report
    }

    /// Namespace phase: registers every namespace that does not exist yet.
    fn sync_namespaces(&mut self, file: &StateFile) -> (report: Vec<ItemReport>)
        requires
            old(self).wf(),
        ensures
            final(self).wf(),
            final(self).store == old(self).store,
            final(self).bus == old(self).bus,
            forall|a: int| 0 <= a < file.namespaces@.len() ==> final(self).has_namespace((#[trigger] file.namespaces@[a]).name@),
            old(self).namespaces@.len() <= final(self).namespaces@.len(),
            forall|m: int| 0 <= m < old(self).namespaces@.len() ==> #[trigger] final(self).namespaces@[m] == old(self).namespaces@[m],
            forall|m: int| old(self).namespaces@.len() <= m < final(self).namespaces@.len() ==> exists|a: int|
                0 <= a < file.namespaces@.len() && file.namespaces@[a].name@ == (#[trigger] final(self).namespaces@[m])@,
            (forall|a: int| 0 <= a < file.namespaces@.len() ==> old(self).has_namespace((#[trigger] file.namespaces@[a]).name@))
                ==> final(self).namespaces@ == old(self).namespaces@,
            report@.len() == file.namespaces@.len(),
            forall|a: int| 0 <= a < report@.len() ==> (#[trigger] report@[a]).name@ == file.namespaces@[a].name@ && (
                old(self).has_namespace(file.namespaces@[a].name@) ==> report@[a].outcome == Outcome::Unchanged) && (
                report@[a].outcome == Outcome::Unchanged || report@[a].outcome == Outcome::Created),
    {
        let ghost n0 = self.namespaces@;
        let mut report: Vec<ItemReport> = Vec::new();
        let mut a: usize = 0;
        while a < file.namespaces.len()
            invariant
                self.wf(),
                n0 == old(self).namespaces@,
                self.store == old(self).store,
                self.bus == old(self).bus,
                a <= file.namespaces@.len(),
                forall|c: int| 0 <= c < a ==> self.has_namespace((#[trigger] file.namespaces@[c]).name@),
                n0.len() <= self.namespaces@.len(),
                forall|m: int| 0 <= m < n0.len() ==> #[trigger] self.namespaces@[m] == n0[m],
                forall|m: int| n0.len() <= m < self.namespaces@.len() ==> exists|c: int|
                    0 <= c < file.namespaces@.len() && file.namespaces@[c].name@ == (#[trigger] self.namespaces@[m])@,
                (forall|c: int| 0 <= c < file.namespaces@.len() ==> old(self).has_namespace((#[trigger] file.namespaces@[c]).name@))
                    ==> self.namespaces@ == n0,
                report@.len() == a,
                forall|c: int| 0 <= c < a ==> (#[trigger] report@[c]).name@ == file.namespaces@[c].name@ && (
                    old(self).has_namespace(file.namespaces@[c].name@) ==> report@[c].outcome == Outcome::Unchanged) && (
                    report@[c].outcome == Outcome::Unchanged || report@[c].outcome == Outcome::Created),
            decreases file.namespaces@.len() - a,
        {
            let name = &file.namespaces[a].name;
            let ghost before = self.namespaces@;
            let ghost snap = *self;
            let created = self.create_namespace(name.clone());
            let outcome = if created.is_ok() {
                Outcome::Created
            } else {
                Outcome::Unchanged
            };
            proof {
                if created.is_ok() {
                    assert(self.namespaces@[before.len() as int]@ == name@);
                    if old(self).has_namespace(name@) {
                        let i = choose|i: int| 0 <= i < n0.len() && (#[trigger] n0[i])@ == name@;
                        assert(before[i]@ == name@);
                    }
                }
                assert forall|c: int| 0 <= c < a + 1 implies self.has_namespace((#[trigger] file.namespaces@[c]).name@) by {
                    if c < a {
                        assert(snap.has_namespace(file.namespaces@[c].name@));
                        let i = choose|i: int| 0 <= i < before.len() && (#[trigger] before[i])@ == file.namespaces@[c].name@;
                        assert(self.namespaces@[i] == before[i]);
                    } else if created.is_err() {
                        assert(snap.has_namespace(name@));
                    }
                }
                assert forall|m: int| n0.len() <= m < self.namespaces@.len() implies exists|c: int|
                    0 <= c < file.namespaces@.len() && file.namespaces@[c].name@ == (#[trigger] self.namespaces@[m])@ by {
                    if m < before.len() {
                        assert(self.namespaces@[m] == before[m]);
                    } else {
                        assert(file.namespaces@[a as int].name@ == self.namespaces@[m]@);
                    }
                }
            }
            let ghost prev = report@;
            report.push(ItemReport { name: name.clone(), outcome });
            proof {
                assert forall|c: int| 0 <= c < a + 1 implies (#[trigger] report@[c]).name@ == file.namespaces@[c].name@ && (
                    old(self).has_namespace(file.namespaces@[c].name@) ==> report@[c].outcome == Outcome::Unchanged) && (
                    report@[c].outcome == Outcome::Unchanged || report@[c].outcome == Outcome::Created) by {
                    if c < a {
                        assert(report@[c] == prev[c]);
                    }
                }
            }
            a = a + 1;
        }
        report
    }

    /// Converges the store toward `file`: namespaces, then resources, then pruning.
    /// Items fail independently; re-applying the same file is the way to retry.
    pub fn apply(&mut self, file: &StateFile, now: i64) -> (report: ApplyReport)
        requires
            old(self).wf(),
        ensures
            final(self).wf(),
            forall|a: int| 0 <= a < file.namespaces@.len() ==> final(self).has_namespace((#[trigger] file.namespaces@[a]).name@),
            old(self).namespaces@.len() <= final(self).namespaces@.len(),
            forall|m: int| 0 <= m < old(self).namespaces@.len() ==> #[trigger] final(self).namespaces@[m] == old(self).namespaces@[m],
            forall|m: int| old(self).namespaces@.len() <= m < final(self).namespaces@.len() ==> exists|a: int|
                0 <= a < file.namespaces@.len() && file.namespaces@[a].name@ == (#[trigger] final(self).namespaces@[m])@,
            (forall|a: int| 0 <= a < file.namespaces@.len() ==> old(self).has_namespace((#[trigger] file.namespaces@[a]).name@))
                ==> final(self).namespaces@ == old(self).namespaces@,
            report.namespaces@.len() == file.namespaces@.len(),
            forall|a: int| 0 <= a < report.namespaces@.len() ==> (#[trigger] report.namespaces@[a]).name@ == file.namespaces@[a].name@
                && (old(self).has_namespace(file.namespaces@[a].name@) ==> report.namespaces@[a].outcome == Outcome::Unchanged)
                && (report.namespaces@[a].outcome == Outcome::Unchanged || report.namespaces@[a].outcome == Outcome::Created),
            apply_outcome(old(self).store@, old(self).bus@, file, final(self).store@, final(self).bus@, report),
    {
        let namespaces = self.sync_namespaces(file);
        let ghost s0 = self.store@;
        let resources = self.sync_resources(file, now);
        let ghost s1 = self.store@;
        let pruned = self.prune_undeclared(file, now);
        proof {
            let s2 = self.store@;
            if settled(file, resources@, file.resources@.len() as int) {
                assert forall|i: int| 0 <= i < file.resources@.len() && first_entry(file, i) implies item_in_sync(s2, #[trigger] file.resources@[i]) by {
                    assert(!(resources@[i].outcome is Failed));
                    assert(item_in_sync(s1, file.resources@[i]));
                    let k = file.resources@[i].name@;
                    assert(declares(file, k));
                    assert(s2.resources.contains_key(k));
                    assert(s2.resources[k] == s1.resources[k]);
                }
            }
            if in_sync(s0, file) {
                assert forall|k: Seq<char>|
                    #[trigger] s1.resources.contains_key(k) && prunes(file, s1.resources[k].namespace) implies declares(file, k) by {
                    assert(s0.resources.contains_key(k));
                }
            }
            assert forall|j: int| 0 <= j < pruned@.len() implies prune_target(s0, file, (#[trigger] pruned@[j]).name@) by {
                let k = pruned@[j].name@;
                assert(prune_target(s1, file, k));
                assert(s1.resources.contains_key(k) == s0.resources.contains_key(k));
            }
        }
        let report = ApplyReport { namespaces, resources, pruned };
        assert(report.resources@ == resources@);
        assert(report.pruned@ == pruned@);
        report
    }
}

} // verus!
