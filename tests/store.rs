use nanocld::engine::{DaemonState, ResourceRevertPath};
use nanocld::error::ErrorKind;
use nanocld::events::EventAction;
use nanocld::store::{bytes_equal, ResourceStore};

fn s(v: &str) -> String {
    String::from(v)
}

#[test]
fn web_rule_patch_and_revert() {
    let mut d = DaemonState::new();
    let r = d.create_resource(s("global"), s("web-rule"), s("ProxyRule"), b"{host:\"a.com\"}".to_vec(), 1).unwrap();
    let v1 = d.store.config_at(r.config_key).unwrap();
    assert_eq!(v1.version, 1);
    let mut sub = d.bus.subscribe();
    let r = d.patch_resource(&s("web-rule"), b"{host:\"b.com\"}".to_vec(), 2).unwrap();
    let v2 = d.store.config_at(r.config_key).unwrap();
    assert_eq!(v2.version, 2);
    let ev = d.bus.next_event(&mut sub).unwrap();
    assert_eq!(ev.action, EventAction::Patched);
    assert_eq!(ev.key, "web-rule");
    assert_eq!(ev.kind, "ProxyRule");
    assert_eq!(ev.payload, b"{host:\"b.com\"}".to_vec());
    assert!(d.bus.next_event(&mut sub).is_none());
    d.revert_resource(&s("web-rule"), v1.id, 3).unwrap();
    let head = d.store.head_config(&s("web-rule")).unwrap();
    assert_eq!(head.payload, b"{host:\"a.com\"}".to_vec());
    assert_eq!(head.version, 1);
    assert_eq!(d.store.history(&s("web-rule")).unwrap().len(), 2);
    let ev = d.bus.next_event(&mut sub).unwrap();
    assert_eq!(ev.action, EventAction::Patched);
    assert_eq!(ev.payload, b"{host:\"a.com\"}".to_vec());
}

#[test]
fn history_is_newest_first_without_gaps() {
    let mut st = ResourceStore::new();
    st.create(s("ns"), s("a"), s("K"), vec![1], 0).unwrap();
    st.create(s("ns"), s("b"), s("K"), vec![9], 0).unwrap();
    st.patch(&s("a"), vec![2], 1).unwrap();
    st.patch(&s("b"), vec![8], 1).unwrap();
    st.patch(&s("a"), vec![3], 2).unwrap();
    let h = st.history(&s("a")).unwrap();
    let versions: Vec<usize> = h.iter().map(|c| c.version).collect();
    assert_eq!(versions, vec![3, 2, 1]);
    let payloads: Vec<Vec<u8>> = h.iter().map(|c| c.payload.clone()).collect();
    assert_eq!(payloads, vec![vec![3], vec![2], vec![1]]);
    assert!(h.iter().all(|c| c.resource_key == "a"));
    let head = st.head_config(&s("a")).unwrap();
    assert_eq!(head.id, h[0].id);
}

#[test]
fn create_twice_conflicts() {
    let mut st = ResourceStore::new();
    st.create(s("ns"), s("a"), s("K"), vec![1], 0).unwrap();
    assert_eq!(st.create(s("ns"), s("a"), s("K"), vec![2], 0).err(), Some(ErrorKind::Conflict));
    assert_eq!(st.history(&s("a")).unwrap().len(), 1);
}

#[test]
fn unknown_keys_are_not_found() {
    let mut st = ResourceStore::new();
    assert_eq!(st.get(&s("x")).err(), Some(ErrorKind::NotFound));
    assert_eq!(st.patch(&s("x"), vec![1], 0).err(), Some(ErrorKind::NotFound));
    assert_eq!(st.history(&s("x")).err(), Some(ErrorKind::NotFound));
    assert_eq!(st.revert(&s("x"), 0, ).err(), Some(ErrorKind::NotFound));
}

#[test]
fn revert_with_foreign_id_conflicts() {
    let mut st = ResourceStore::new();
    let a = st.create(s("ns"), s("a"), s("K"), vec![1], 0).unwrap();
    st.create(s("ns"), s("b"), s("K"), vec![2], 0).unwrap();
    assert_eq!(st.revert(&s("b"), a.config_key).err(), Some(ErrorKind::Conflict));
    assert_eq!(st.revert(&s("b"), 99).err(), Some(ErrorKind::NotFound));
    assert_eq!(st.head_config(&s("b")).unwrap().payload, vec![2]);
}

#[test]
fn revert_path_checks_version() {
    let mut d = DaemonState::new();
    let r = d.create_resource(s("ns"), s("a"), s("K"), vec![1], 0).unwrap();
    d.patch_resource(&s("a"), vec![2], 1).unwrap();
    let wrong = ResourceRevertPath { version: 2, name: s("a"), id: r.config_key };
    assert_eq!(d.revert_from_path(&wrong, 2).err(), Some(ErrorKind::Conflict));
    let right = ResourceRevertPath { version: 1, name: s("a"), id: r.config_key };
    d.revert_from_path(&right, 2).unwrap();
    assert_eq!(d.store.head_config(&s("a")).unwrap().payload, vec![1]);
}

#[test]
fn delete_keeps_history() {
    let mut d = DaemonState::new();
    assert_eq!(d.delete_resource(&s("gone"), 0).err(), Some(ErrorKind::NotFound));
    d.create_resource(s("ns"), s("a"), s("K"), vec![1], 0).unwrap();
    d.patch_resource(&s("a"), vec![2], 1).unwrap();
    let before = d.bus.len();
    d.delete_resource(&s("a"), 2).unwrap();
    assert_eq!(d.bus.len(), before + 1);
    assert_eq!(d.store.get(&s("a")).err(), Some(ErrorKind::NotFound));
    let h = d.store.history(&s("a")).unwrap();
    assert_eq!(h.len(), 2);
    assert_eq!(h[0].payload, vec![2]);
}

#[test]
fn serialized_patches_each_add_a_version() {
    let mut st = ResourceStore::new();
    st.create(s("ns"), s("a"), s("K"), vec![0], 0).unwrap();
    let first = st.patch(&s("a"), vec![1], 1).unwrap();
    let second = st.patch(&s("a"), vec![2], 1).unwrap();
    assert_ne!(first.config_key, second.config_key);
    let v1 = st.config_at(first.config_key).unwrap().version;
    let v2 = st.config_at(second.config_key).unwrap().version;
    assert_eq!(v2, v1 + 1);
    assert_eq!(st.history(&s("a")).unwrap().len(), 3);
}

#[test]
fn subscribers_see_only_later_events() {
    let mut d = DaemonState::new();
    d.create_resource(s("ns"), s("a"), s("K"), vec![1], 0).unwrap();
    let mut sub = d.bus.subscribe();
    assert!(d.bus.next_event(&mut sub).is_none());
    d.create_resource(s("ns"), s("b"), s("K"), vec![2], 0).unwrap();
    let e = d.bus.next_event(&mut sub).unwrap();
    assert_eq!(e.action, EventAction::Created);
    assert_eq!(e.key, "b");
    assert_eq!(e.seq, 1);
}

#[test]
fn namespaces_delete_only_when_empty() {
    let mut d = DaemonState::new();
    d.create_namespace(s("ns1")).unwrap();
    assert_eq!(d.create_namespace(s("ns1")).err(), Some(ErrorKind::Conflict));
    d.create_resource(s("ns1"), s("a"), s("K"), vec![1], 0).unwrap();
    assert_eq!(d.delete_namespace(&s("ns1")).err(), Some(ErrorKind::Conflict));
    d.delete_resource(&s("a"), 1).unwrap();
    d.delete_namespace(&s("ns1")).unwrap();
    assert!(!d.namespace_exists(&s("ns1")));
    assert_eq!(d.delete_namespace(&s("ns1")).err(), Some(ErrorKind::NotFound));
}

#[test]
fn byte_comparison_and_retry_classes() {
    assert!(bytes_equal(&vec![1, 2], &vec![1, 2]));
    assert!(!bytes_equal(&vec![1, 2], &vec![1, 3]));
    assert!(!bytes_equal(&vec![1], &vec![1, 2]));
    assert!(ErrorKind::Store.is_retryable());
    assert!(ErrorKind::Unavailable.is_retryable());
    assert!(!ErrorKind::Conflict.is_retryable());
    assert!(!ErrorKind::NotFound.is_retryable());
    assert!(!ErrorKind::Validation.is_retryable());
}

#[test]
fn kind_controller_filters_events_and_lists_its_kind() {
    let mut d = DaemonState::new();
    let mut sub = d.bus.subscribe();
    d.create_resource(s("ns"), s("rule-a"), s("ProxyRule"), vec![1], 0).unwrap();
    d.create_resource(s("ns"), s("dns-a"), s("DnsRule"), vec![2], 0).unwrap();
    d.patch_resource(&s("rule-a"), vec![3], 1).unwrap();
    let kind = s("ProxyRule");
    let e = d.bus.next_event_of_kind(&mut sub, &kind).unwrap();
    assert_eq!((e.action, e.seq), (EventAction::Created, 0));
    let e = d.bus.next_event_of_kind(&mut sub, &kind).unwrap();
    assert_eq!((e.action, e.seq), (EventAction::Patched, 2));
    assert_eq!(e.payload, vec![3]);
    assert!(d.bus.next_event_of_kind(&mut sub, &kind).is_none());
    let rules = d.store.resources_of_kind(&kind);
    assert_eq!(rules.len(), 1);
    assert_eq!(rules[0].key, "rule-a");
    assert_eq!(d.store.keys_in_namespace(&s("ns")).len(), 2);
    assert!(d.store.keys_in_namespace(&s("other")).is_empty());
}

#[test]
fn revert_to_own_snapshot_succeeds() {
    let mut st = ResourceStore::new();
    let a = st.create(s("ns"), s("a"), s("K"), vec![1], 0).unwrap();
    st.patch(&s("a"), vec![2], 1).unwrap();
    let r = st.revert(&s("a"), a.config_key).unwrap();
    assert_eq!(r.config_key, a.config_key);
    assert_eq!(st.head_config(&s("a")).unwrap().payload, vec![1]);
    assert_eq!(st.history(&s("a")).unwrap().len(), 2);
}
