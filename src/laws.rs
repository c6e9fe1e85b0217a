use vstd::prelude::*;

use crate::events::EventView;
use crate::reconcile::{apply_outcome, first_entry, has_room, ApplyReport, Outcome, StateFile};
use crate::store::{lemma_history_push, StoreView};

verus! {

/// Applying the same state file twice: when the store had room for the first apply,
/// the second one writes no snapshot, publishes no event, deletes nothing and
/// reports every entry it accepts as unchanged.
pub proof fn lemma_apply_idempotent(
    file: &StateFile,
    s0: StoreView,
    b0: Seq<EventView>,
    s1: StoreView,
    b1: Seq<EventView>,
    r1: ApplyReport,
    s2: StoreView,
    b2: Seq<EventView>,
    r2: ApplyReport,
)
    requires
        has_room(s0, file),
        apply_outcome(s0, b0, file, s1, b1, r1),
        apply_outcome(s1, b1, file, s2, b2, r2),
    ensures
        s2 == s1,
        b2 == b1,
        r2.pruned@.len() == 0,
        forall|i: int| 0 <= i < r2.resources@.len() && first_entry(file, i)
            ==> (#[trigger] r2.resources@[i]).outcome == Outcome::Unchanged,
{
}

/// In a valid store, the versions in the history of every key run 1, 2, 3, ... with no gap.
pub proof fn lemma_versions_contiguous(s: StoreView, key: Seq<char>)
    requires
        s.valid(),
    ensures
        forall|j: int| 0 <= j < s.history(key).len() ==> (#[trigger] s.history(key)[j]).version == j + 1,
{
}

/// Creating a resource keeps the store valid, and its head is its newest snapshot.
pub proof fn lemma_create_head_is_newest(
    s: StoreView,
    namespace: Seq<char>,
    key: Seq<char>,
    kind: Seq<char>,
    payload: Seq<u8>,
    now: int,
)
    requires
        s.valid(),
        !s.resources.contains_key(key),
    ensures
        s.created(namespace, key, kind, payload, now).valid(),
        s.created(namespace, key, kind, payload, now).head(key) == s.created(namespace, key, kind, payload, now).history(key).last(),
        s.created(namespace, key, kind, payload, now).history(key) == s.history(key).push(s.next_config(key, payload, now)),
{
    let t = s.created(namespace, key, kind, payload, now);
    let c = s.next_config(key, payload, now);
    lemma_history_push(s.configs, c, key);
    assert forall|k: Seq<char>, j: int| 0 <= j < t.history(k).len() implies (#[trigger] t.history(k)[j]).version == j + 1 by {
        lemma_history_push(s.configs, c, k);
        if j < s.history(k).len() {
            assert(t.history(k)[j] == s.history(k)[j]);
        }
    }
    assert forall|k: Seq<char>| #[trigger] t.resources.contains_key(k) implies t.resources[k].key == k
        && t.resources[k].config_key < t.configs.len()
        && t.configs[t.resources[k].config_key as int].resource_key == k by {
        if k != key {
            assert(t.configs[t.resources[k].config_key as int] == s.configs[s.resources[k].config_key as int]);
        }
    }
}

/// Patching keeps the store valid, and afterwards the head is the newest snapshot.
pub proof fn lemma_patch_head_is_newest(s: StoreView, key: Seq<char>, payload: Seq<u8>, now: int)
    requires
        s.valid(),
        s.resources.contains_key(key),
    ensures
        s.patched(key, payload, now).valid(),
        s.patched(key, payload, now).head(key) == s.patched(key, payload, now).history(key).last(),
        s.patched(key, payload, now).history(key) == s.history(key).push(s.next_config(key, payload, now)),
{
    let t = s.patched(key, payload, now);
    let c = s.next_config(key, payload, now);
    lemma_history_push(s.configs, c, key);
    assert forall|k: Seq<char>, j: int| 0 <= j < t.history(k).len() implies (#[trigger] t.history(k)[j]).version == j + 1 by {
        lemma_history_push(s.configs, c, k);
        if j < s.history(k).len() {
            assert(t.history(k)[j] == s.history(k)[j]);
        }
    }
    assert forall|k: Seq<char>| #[trigger] t.resources.contains_key(k) implies t.resources[k].key == k
        && t.resources[k].config_key < t.configs.len()
        && t.configs[t.resources[k].config_key as int].resource_key == k by {
        if k != key {
            assert(t.configs[t.resources[k].config_key as int] == s.configs[s.resources[k].config_key as int]);
        }
    }
}

/// After a revert to snapshot `id` of `key`, the head is that very snapshot and
/// no snapshot has been added.
pub proof fn lemma_revert_restores(s: StoreView, key: Seq<char>, id: nat)
    requires
        s.valid(),
        s.resources.contains_key(key),
        id < s.configs.len(),
        s.configs[id as int].resource_key == key,
    ensures
        s.reverted(key, id).valid(),
        s.reverted(key, id).head(key) == s.configs[id as int],
        s.reverted(key, id).configs == s.configs,
        s.reverted(key, id).history(key) == s.history(key),
{
    let t = s.reverted(key, id);
    assert forall|k: Seq<char>, j: int| 0 <= j < t.history(k).len() implies (#[trigger] t.history(k)[j]).version == j + 1 by {
        assert(t.history(k) == s.history(k));
    }
    assert forall|k: Seq<char>| #[trigger] t.resources.contains_key(k) implies t.resources[k].key == k
        && t.resources[k].config_key < t.configs.len()
        && t.configs[t.resources[k].config_key as int].resource_key == k by {
        if k != key {
            assert(s.resources.contains_key(k));
        }
    }
}

/// Deleting a live resource removes it but leaves its history in place.
pub proof fn lemma_delete_keeps_history(s: StoreView, key: Seq<char>)
    requires
        s.valid(),
        s.resources.contains_key(key),
    ensures
        s.deleted(key).valid(),
        !s.deleted(key).resources.contains_key(key),
        s.deleted(key).history(key) == s.history(key),
        s.history(key).len() > 0,
{
    crate::store::lemma_history_complete(s.configs, key, s.resources[key].config_key as int);
    let t = s.deleted(key);
    assert forall|k: Seq<char>, j: int| 0 <= j < t.history(k).len() implies (#[trigger] t.history(k)[j]).version == j + 1 by {
        assert(t.history(k) == s.history(k));
    }
    assert forall|k: Seq<char>| #[trigger] t.resources.contains_key(k) implies t.resources[k].key == k
        && t.resources[k].config_key < t.configs.len()
        && t.configs[t.resources[k].config_key as int].resource_key == k by {
        assert(s.resources.contains_key(k));
    }
}

/// The store after writing each payload of `payloads` to `key`, in order.
pub open spec fn patch_all(s: StoreView, key: Seq<char>, payloads: Seq<Seq<u8>>, now: int) -> StoreView
    decreases payloads.len(),
{
    if payloads.len() == 0 {
        s
    } else {
        patch_all(s, key, payloads.drop_last(), now).patched(key, payloads.last(), now)
    }
}

/// Serialized patches on one key each build on the previous head: after a run of
/// successful patches the history holds one snapshot more per patch, and the head
/// is the newest one, whose version counts them.
pub proof fn lemma_patches_serialize(s: StoreView, key: Seq<char>, payloads: Seq<Seq<u8>>, now: int)
    requires
        s.valid(),
        s.resources.contains_key(key),
    ensures
        patch_all(s, key, payloads, now).valid(),
        patch_all(s, key, payloads, now).resources.contains_key(key),
        patch_all(s, key, payloads, now).history(key).len() == s.history(key).len() + payloads.len(),
        payloads.len() > 0 ==> patch_all(s, key, payloads, now).head(key).version == s.history(key).len()
            + payloads.len(),
    decreases payloads.len(),
{
    if payloads.len() > 0 {
        let prev = patch_all(s, key, payloads.drop_last(), now);
        lemma_patches_serialize(s, key, payloads.drop_last(), now);
        lemma_patch_head_is_newest(prev, key, payloads.last(), now);
        let t = patch_all(s, key, payloads, now);
        assert(t.history(key).len() > 0);
        lemma_versions_contiguous(t, key);
        assert(t.history(key)[t.history(key).len() - 1].version == t.history(key).len());
    }
}

/// A resource created on a fresh key and then patched `n` times has `n + 1` versions,
/// and its head carries version `n + 1`.
pub proof fn lemma_version_count(
    s: StoreView,
    namespace: Seq<char>,
    key: Seq<char>,
    kind: Seq<char>,
    first: Seq<u8>,
    payloads: Seq<Seq<u8>>,
    now: int,
)
    requires
        s.valid(),
        s.history(key).len() == 0,
        !s.resources.contains_key(key),
    ensures
        patch_all(s.created(namespace, key, kind, first, now), key, payloads, now).history(key).len() == payloads.len() + 1,
        patch_all(s.created(namespace, key, kind, first, now), key, payloads, now).head(key).version == payloads.len() + 1,
{
    let c = s.created(namespace, key, kind, first, now);
    lemma_create_head_is_newest(s, namespace, key, kind, first, now);
    lemma_patches_serialize(c, key, payloads, now);
    if payloads.len() == 0 {
        lemma_versions_contiguous(c, key);
        assert(c.history(key)[0].version == 1);
    }
}

/// The head of `key` is the newest snapshot in its history.
pub open spec fn head_is_newest(s: StoreView, key: Seq<char>) -> bool {
    s.resources.contains_key(key) && s.history(key).len() > 0 && s.head(key) == s.history(key).last()
}

/// Creating, patching, reverting or deleting another key leaves the head of `key`
/// the newest snapshot of `key`: only a revert of `key` itself can move it back.
pub proof fn lemma_other_writes_keep_head(
    s: StoreView,
    key: Seq<char>,
    other: Seq<char>,
    namespace: Seq<char>,
    kind: Seq<char>,
    payload: Seq<u8>,
    now: int,
    id: nat,
)
    requires
        s.valid(),
        other != key,
        head_is_newest(s, key),
    ensures
        !s.resources.contains_key(other) ==> head_is_newest(s.created(namespace, other, kind, payload, now), key),
        s.resources.contains_key(other) ==> head_is_newest(s.patched(other, payload, now), key),
        head_is_newest(s.reverted(other, id), key),
        head_is_newest(s.deleted(other), key),
{
    let c = s.next_config(other, payload, now);
    lemma_history_push(s.configs, c, key);
    let ck = s.resources[key].config_key as int;
    assert(s.configs.push(c)[ck] == s.configs[ck]);
}

/// Right after a create or a patch of `key`, its head is the newest snapshot.
pub proof fn lemma_write_makes_head_newest(s: StoreView, key: Seq<char>, namespace: Seq<char>, kind: Seq<char>, payload: Seq<u8>, now: int)
    requires
        s.valid(),
    ensures
        !s.resources.contains_key(key) ==> head_is_newest(s.created(namespace, key, kind, payload, now), key),
        s.resources.contains_key(key) ==> head_is_newest(s.patched(key, payload, now), key),
{
    if s.resources.contains_key(key) {
        lemma_patch_head_is_newest(s, key, payload, now);
    } else {
        lemma_create_head_is_newest(s, namespace, key, kind, payload, now);
    }
}

} // verus!
