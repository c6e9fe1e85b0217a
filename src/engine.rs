use vstd::prelude::*;

use crate::error::ErrorKind;
use crate::events::{EventAction, EventBus, EventView};
use crate::store::{copy_bytes, ResourceDbModel, ResourceStore};

verus! {

/// The event published for a mutation of `key`.
pub open spec fn event_for(
    bus: Seq<EventView>,
    action: EventAction,
    key: Seq<char>,
    kind: Seq<char>,
    payload: Seq<u8>,
    now: int,
) -> Seq<EventView> {
    bus.push(EventView { seq: bus.len(), action, key, kind, payload, timestamp: now })
}

/// No two namespaces share a name.
pub open spec fn unique_names(ns: Seq<String>) -> bool {
    forall|i: int, j: int| 0 <= i < ns.len() && 0 <= j < ns.len() && #[trigger] ns[i]@ == #[trigger] ns[j]@ ==> i == j
}

/// Address of a revert request: the resource, the snapshot id and the version it must carry.
pub struct ResourceRevertPath {
    pub version: usize,
    pub name: String,
    pub id: usize,
}

/// The daemon context: the resource store, the event bus and the known namespaces,
/// built once and handed to every entry point.
pub struct DaemonState {
    pub store: ResourceStore,
    pub bus: EventBus,
    pub namespaces: Vec<String>,
}

impl DaemonState {
    pub open spec fn wf(&self) -> bool {
        self.store.wf() && self.bus.wf() && unique_names(self.namespaces@)
    }

    pub open spec fn has_namespace(&self, name: Seq<char>) -> bool {
        exists|i: int| 0 <= i < self.namespaces@.len() && (#[trigger] self.namespaces@[i])@ == name
    }

    pub fn new() -> (r: DaemonState)
        ensures
            r.wf(),
            r.store@.configs.len() == 0,
            r.store@.resources.is_empty(),
            r.bus@.len() == 0,
            r.namespaces@.len() == 0,
    {
        DaemonState { store: ResourceStore::new(), bus: EventBus::new(), namespaces: Vec::new() }
    }

    /// Position of the namespace `name` in the list.
    fn namespace_index(&self, name: &String) -> (r: Option<usize>)
        ensures
            match r {
                Some(i) => i < self.namespaces@.len() && self.namespaces@[i as int]@ == name@,
                None => !self.has_namespace(name@),
            },
    {
        let mut i: usize = 0;
        while i < self.namespaces.len()
            invariant
                i <= self.namespaces@.len(),
                forall|j: int| 0 <= j < i ==> (#[trigger] self.namespaces@[j])@ != name@,
            decreases self.namespaces@.len() - i,
        {
            if self.namespaces[i] == *name {
                return Some(i);
            }
            i = i + 1;
        }
        None
    }

    /// Whether the namespace `name` exists.
    pub fn namespace_exists(&self, name: &String) -> (r: bool)
        ensures
            r == self.has_namespace(name@),
    {
        self.namespace_index(name).is_some()
    }

    /// Registers the namespace `name`; `Conflict` if it exists.
    pub fn create_namespace(&mut self, name: String) -> (r: Result<(), ErrorKind>)
        requires
            old(self).wf(),
        ensures
            final(self).wf(),
            final(self).store == old(self).store,
            final(self).bus == old(self).bus,
            old(self).has_namespace(name@) ==> r == Err::<(), ErrorKind>(ErrorKind::Conflict)
                && final(self).namespaces@ == old(self).namespaces@,
            !old(self).has_namespace(name@) ==> r is Ok && final(self).namespaces@ == old(self).namespaces@.push(name),
    {
        if self.namespace_exists(&name) {
            return Err(ErrorKind::Conflict);
        }
        let ghost before = self.namespaces@;
        self.namespaces.push(name);
        proof {
            let ns = self.namespaces@;
            assert forall|i: int, j: int| 0 <= i < ns.len() && 0 <= j < ns.len() && #[trigger] ns[i]@ == #[trigger] ns[j]@
                implies i == j by {
                if i < before.len() && j < before.len() {
                    assert(before[i]@ == before[j]@);
                } else if i < before.len() {
                    assert(before[i]@ == ns[j]@);
                } else if j < before.len() {
                    assert(before[j]@ == ns[i]@);
                }
            }
        }
        Ok(())
    }

    /// Creates a resource and publishes `Created` with its payload.
    pub fn create_resource(&mut self, namespace: String, key: String, kind: String, payload: Vec<u8>, now: i64) -> (r: Result<ResourceDbModel, ErrorKind>)
        requires
            old(self).wf(),
        ensures
            final(self).wf(),
            final(self).namespaces == old(self).namespaces,
            old(self).store@.resources.contains_key(key@) ==> r == Err::<ResourceDbModel, ErrorKind>(ErrorKind::Conflict),
            !old(self).store@.resources.contains_key(key@) && old(self).store@.is_full() ==> r == Err::<ResourceDbModel, ErrorKind>(ErrorKind::Store),
            !old(self).store@.resources.contains_key(key@) && !old(self).store@.is_full() ==> r is Ok,
            r is Err ==> final(self).store@ == old(self).store@ && final(self).bus@ == old(self).bus@,
            r is Ok ==> {
                &&& final(self).store@ == old(self).store@.created(namespace@, key@, kind@, payload@, now as int)
                &&& r->Ok_0@ == final(self).store@.resources[key@]
                &&& final(self).bus@ == event_for(old(self).bus@, EventAction::Created, key@, kind@, payload@, now as int)
            },
    {
        let ev_key = key.clone();
        let ev_kind = kind.clone();
        let ev_payload = copy_bytes(&payload);
        let r = self.store.create(namespace, key, kind, payload, now);
        if r.is_ok() {
            self.bus.publish(EventAction::Created, ev_key, ev_kind, ev_payload, now);
        }
        r
    }

    /// Writes a new snapshot of `key` and publishes `Patched` with its payload.
    pub fn patch_resource(&mut self, key: &String, payload: Vec<u8>, now: i64) -> (r: Result<ResourceDbModel, ErrorKind>)
        requires
            old(self).wf(),
        ensures
            final(self).wf(),
            final(self).namespaces == old(self).namespaces,
            !old(self).store@.resources.contains_key(key@) ==> r == Err::<ResourceDbModel, ErrorKind>(ErrorKind::NotFound),
            old(self).store@.resources.contains_key(key@) && old(self).store@.is_full() ==> r == Err::<ResourceDbModel, ErrorKind>(ErrorKind::Store),
            old(self).store@.resources.contains_key(key@) && !old(self).store@.is_full() ==> r is Ok,
            r is Err ==> final(self).store@ == old(self).store@ && final(self).bus@ == old(self).bus@,
            r is Ok ==> {
                &&& final(self).store@ == old(self).store@.patched(key@, payload@, now as int)
                &&& r->Ok_0@ == final(self).store@.resources[key@]
                &&& final(self).bus@ == event_for(
                    old(self).bus@,
                    EventAction::Patched,
                    key@,
                    old(self).store@.resources[key@].kind,
                    payload@,
                    now as int,
                )
            },
    {
        let ev_payload = copy_bytes(&payload);
        let r = self.store.patch(key, payload, now);
        match r {
            Ok(res) => {
                self.bus.publish(EventAction::Patched, key.clone(), res.kind.clone(), ev_payload, now);
                Ok(res)
            },
            Err(e) => Err(e),
        }
    }

    /// Removes `key` (its history stays) and publishes `Deleted` with its last head payload.
    pub fn delete_resource(&mut self, key: &String, now: i64) -> (r: Result<(), ErrorKind>)
        requires
            old(self).wf(),
        ensures
            final(self).wf(),
            final(self).namespaces == old(self).namespaces,
            r is Ok <==> old(self).store@.resources.contains_key(key@),
            r is Err ==> r->Err_0 == ErrorKind::NotFound && final(self).store@ == old(self).store@
                && final(self).bus@ == old(self).bus@,
            r is Ok ==> {
                &&& final(self).store@ == old(self).store@.deleted(key@)
                &&& final(self).bus@ == event_for(
                    old(self).bus@,
                    EventAction::Deleted,
                    key@,
                    old(self).store@.resources[key@].kind,
                    old(self).store@.head(key@).payload,
                    now as int,
                )
            },
    {
        let res = match self.store.get(key) {
            Ok(res) => res,
            Err(e) => return Err(e),
        };
        let head = match self.store.head_config(key) {
            Ok(c) => c,
            Err(e) => return Err(e),
        };
        let r = self.store.delete(key);
        if r.is_ok() {
            self.bus.publish(EventAction::Deleted, key.clone(), res.kind, head.payload, now);
        }
        r
    }

    /// Points the head of `key` back at snapshot `id` and publishes `Patched` with that payload.
    pub fn revert_resource(&mut self, key: &String, id: usize, now: i64) -> (r: Result<ResourceDbModel, ErrorKind>)
        requires
            old(self).wf(),
        ensures
            final(self).wf(),
            final(self).namespaces == old(self).namespaces,
            r == Err::<ResourceDbModel, ErrorKind>(ErrorKind::NotFound) <==> !old(self).store@.resources.contains_key(key@)
                || id >= old(self).store@.configs.len(),
            r == Err::<ResourceDbModel, ErrorKind>(ErrorKind::Conflict) <==> old(self).store@.resources.contains_key(key@)
                && id < old(self).store@.configs.len() && old(self).store@.configs[id as int].resource_key != key@,
            old(self).store@.resources.contains_key(key@) && id < old(self).store@.configs.len()
                && old(self).store@.configs[id as int].resource_key == key@ ==> r is Ok,
            r is Err ==> final(self).store@ == old(self).store@ && final(self).bus@ == old(self).bus@,
            r is Ok ==> {
                &&& final(self).store@ == old(self).store@.reverted(key@, id as nat)
                &&& r->Ok_0@ == final(self).store@.resources[key@]
                &&& final(self).bus@ == event_for(
                    old(self).bus@,
                    EventAction::Patched,
                    key@,
                    old(self).store@.resources[key@].kind,
                    old(self).store@.configs[id as int].payload,
                    now as int,
                )
            },
    {
        let r = self.store.revert(key, id);
        match r {
            Ok(res) => {
                let head = match self.store.head_config(key) {
                    Ok(c) => c,
                    Err(e) => return Err(e),
                };
                self.bus.publish(EventAction::Patched, key.clone(), res.kind.clone(), head.payload, now);
                Ok(res)
            },
            Err(e) => Err(e),
        }
    }
    /// Removes the namespace `name`: `NotFound` if it does not exist, `Conflict` while
    /// live resources still belong to it.
    pub fn delete_namespace(&mut self, name: &String) -> (r: Result<(), ErrorKind>)
        requires
            old(self).wf(),
        ensures
            final(self).wf(),
            final(self).store == old(self).store,
            final(self).bus == old(self).bus,
            !old(self).has_namespace(name@) ==> r == Err::<(), ErrorKind>(ErrorKind::NotFound),
            old(self).has_namespace(name@) && (exists|k: Seq<char>| #[trigger] old(self).store@.resources.contains_key(k)
                && old(self).store@.resources[k].namespace == name@) ==> r == Err::<(), ErrorKind>(ErrorKind::Conflict),
            r is Err ==> final(self).namespaces@ == old(self).namespaces@,
            r is Ok ==> exists|i: int| 0 <= i < old(self).namespaces@.len() && old(self).namespaces@[i]@ == name@
                && final(self).namespaces@ == old(self).namespaces@.remove(i),
            r is Ok ==> !final(self).has_namespace(name@),
            old(self).has_namespace(name@) && !(exists|k: Seq<char>| #[trigger] old(self).store@.resources.contains_key(k)
                && old(self).store@.resources[k].namespace == name@) ==> r is Ok,
    {
        let i = match self.namespace_index(name) {
            Some(i) => i,
            None => return Err(ErrorKind::NotFound),
        };
        let keys = self.store.keys_in_namespace(name);
        if keys.len() > 0 {
            assert(self.store@.resources.contains_key(keys@[0]@));
            return Err(ErrorKind::Conflict);
        }
        proof {
            assert forall|k: Seq<char>| #[trigger] self.store@.resources.contains_key(k) implies self.store@.resources[k].namespace != name@ by {
                if self.store@.resources[k].namespace == name@ {
                    let j = choose|j: int| 0 <= j < keys@.len() && keys@[j]@ == k;
                }
            }
        }
        let ghost before = self.namespaces@;
        self.namespaces.remove(i);
        proof {
            let ns = self.namespaces@;
            assert forall|a: int, b: int| 0 <= a < ns.len() && 0 <= b < ns.len() && #[trigger] ns[a]@ == #[trigger] ns[b]@
                implies a == b by {
                let a2 = if a < i { a } else { a + 1 };
                let b2 = if b < i { b } else { b + 1 };
                assert(before[a2]@ == before[b2]@);
            }
            assert forall|j: int| 0 <= j < ns.len() implies (#[trigger] ns[j])@ != name@ by {
                let j2 = if j < i { j } else { j + 1 };
                assert(ns[j] == before[j2]);
                if before[j2]@ == name@ {
                    assert(before[j2]@ == before[i as int]@);
                }
            }
        }
        Ok(())
    }

    /// Revert as addressed by the history endpoint: the snapshot `id` must belong to
    /// `name` and carry `version`, else `Conflict`.
    pub fn revert_from_path(&mut self, path: &ResourceRevertPath, now: i64) -> (r: Result<ResourceDbModel, ErrorKind>)
        requires
            old(self).wf(),
        ensures
            final(self).wf(),
            final(self).namespaces == old(self).namespaces,
            r == Err::<ResourceDbModel, ErrorKind>(ErrorKind::NotFound) <==> !old(self).store@.resources.contains_key(path.name@)
                || path.id >= old(self).store@.configs.len(),
            r == Err::<ResourceDbModel, ErrorKind>(ErrorKind::Conflict) <==> old(self).store@.resources.contains_key(path.name@)
                && path.id < old(self).store@.configs.len() && (old(self).store@.configs[path.id as int].resource_key != path.name@
                || old(self).store@.configs[path.id as int].version != path.version),
            old(self).store@.resources.contains_key(path.name@) && path.id < old(self).store@.configs.len()
                && old(self).store@.configs[path.id as int].resource_key == path.name@
                && old(self).store@.configs[path.id as int].version == path.version ==> r is Ok,
            r is Err ==> final(self).store@ == old(self).store@ && final(self).bus@ == old(self).bus@,
            r is Ok ==> {
                &&& final(self).store@ == old(self).store@.reverted(path.name@, path.id as nat)
                &&& r->Ok_0@ == final(self).store@.resources[path.name@]
                &&& final(self).bus@ == event_for(
                    old(self).bus@,
                    EventAction::Patched,
                    path.name@,
                    old(self).store@.resources[path.name@].kind,
                    old(self).store@.configs[path.id as int].payload,
                    now as int,
                )
            },
    {
        if self.store.get(&path.name).is_err() {
            return Err(ErrorKind::NotFound);
        }
        let target = match self.store.config_at(path.id) {
            Some(c) => c,
            None => return Err(ErrorKind::NotFound),
        };
        if target.resource_key == path.name && target.version != path.version {
            return Err(ErrorKind::Conflict);
        }
        self.revert_resource(&path.name, path.id, now)
    }
}

} // verus!
