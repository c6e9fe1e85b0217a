use nanocld::engine::DaemonState;
use nanocld::error::ErrorKind;
use nanocld::reconcile::{NamespaceSpec, Outcome, ResourceSpec, StateFile};

fn s(v: &str) -> String {
    String::from(v)
}

fn spec(ns: &str, name: &str, payload: &[u8]) -> ResourceSpec {
    ResourceSpec { namespace: s(ns), name: s(name), kind: s("K"), payload: payload.to_vec() }
}

#[test]
fn apply_twice_reports_unchanged() {
    let mut d = DaemonState::new();
    let file = StateFile {
        namespaces: vec![NamespaceSpec { name: s("ns1"), prune: true }],
        resources: vec![spec("ns1", "r1", b"P")],
    };
    let first = d.apply(&file, 1);
    assert_eq!(first.namespaces[0].outcome, Outcome::Created);
    assert_eq!(first.resources[0].name, "r1");
    assert_eq!(first.resources[0].outcome, Outcome::Created);
    let second = d.apply(&file, 2);
    assert_eq!(second.namespaces[0].outcome, Outcome::Unchanged);
    assert_eq!(second.resources[0].name, "r1");
    assert_eq!(second.resources[0].outcome, Outcome::Unchanged);
}

#[test]
fn second_apply_writes_nothing() {
    let mut d = DaemonState::new();
    let file = StateFile {
        namespaces: vec![NamespaceSpec { name: s("ns1"), prune: true }],
        resources: vec![spec("ns1", "a", b"1"), spec("ns1", "b", b"2")],
    };
    d.create_resource(s("ns1"), s("a"), s("K"), b"old".to_vec(), 0).unwrap();
    d.create_resource(s("ns1"), s("stale"), s("K"), b"x".to_vec(), 0).unwrap();
    let first = d.apply(&file, 1);
    let outcomes: Vec<Outcome> = first.resources.iter().map(|r| r.outcome).collect();
    assert_eq!(outcomes, vec![Outcome::Patched, Outcome::Created]);
    assert_eq!(first.pruned.len(), 1);
    assert_eq!(first.pruned[0].name, "stale");
    assert_eq!(first.pruned[0].outcome, Outcome::Deleted);
    let events = d.bus.len();
    let versions = d.store.history(&s("a")).unwrap().len();
    let second = d.apply(&file, 2);
    assert!(second.resources.iter().all(|r| r.outcome == Outcome::Unchanged));
    assert!(second.pruned.is_empty());
    assert_eq!(d.bus.len(), events);
    assert_eq!(d.store.history(&s("a")).unwrap().len(), versions);
    assert_eq!(d.store.history(&s("b")).unwrap().len(), 1);
}

#[test]
fn prune_disabled_keeps_undeclared() {
    let mut d = DaemonState::new();
    d.create_resource(s("ns1"), s("keep"), s("K"), b"x".to_vec(), 0).unwrap();
    d.create_resource(s("ns2"), s("other"), s("K"), b"y".to_vec(), 0).unwrap();
    let file = StateFile {
        namespaces: vec![NamespaceSpec { name: s("ns1"), prune: false }],
        resources: vec![spec("ns1", "new", b"n")],
    };
    let report = d.apply(&file, 1);
    assert_eq!(report.pruned.len(), 1);
    assert_eq!(report.pruned[0].name, "other");
    assert!(d.store.get(&s("keep")).is_ok());
    assert!(d.store.get(&s("other")).is_err());
    assert_eq!(d.store.history(&s("other")).unwrap().len(), 1);
    assert!(d.store.get(&s("new")).is_ok());
    assert!(d.namespace_exists(&s("ns1")));
}

#[test]
fn repeated_entry_is_rejected_and_first_wins() {
    let mut d = DaemonState::new();
    let file = StateFile {
        namespaces: vec![],
        resources: vec![spec("ns", "r", b"one"), spec("ns", "r", b"two")],
    };
    let first = d.apply(&file, 1);
    assert_eq!(first.resources[0].outcome, Outcome::Created);
    assert_eq!(first.resources[1].outcome, Outcome::Failed(ErrorKind::Conflict));
    let events = d.bus.len();
    let second = d.apply(&file, 2);
    assert_eq!(second.resources[0].outcome, Outcome::Unchanged);
    assert_eq!(second.resources[1].outcome, Outcome::Failed(ErrorKind::Conflict));
    assert_eq!(d.bus.len(), events);
    assert_eq!(d.store.head_config(&s("r")).unwrap().payload, b"one".to_vec());
    assert_eq!(d.store.history(&s("r")).unwrap().len(), 1);
}

#[test]
fn reapply_keeps_namespace_list() {
    let mut d = DaemonState::new();
    d.create_namespace(s("base")).unwrap();
    let file = StateFile {
        namespaces: vec![
            NamespaceSpec { name: s("ns1"), prune: false },
            NamespaceSpec { name: s("ns1"), prune: false },
        ],
        resources: vec![],
    };
    let first = d.apply(&file, 1);
    assert_eq!(first.namespaces[0].outcome, Outcome::Created);
    assert_eq!(first.namespaces[1].outcome, Outcome::Unchanged);
    assert_eq!(d.namespaces, vec![s("base"), s("ns1")]);
    d.apply(&file, 2);
    assert_eq!(d.namespaces, vec![s("base"), s("ns1")]);
    assert!(d.store.get(&s("base")).is_err());
}
