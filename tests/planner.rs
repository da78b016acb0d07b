use moose_core::infra::{compare_ids, order, InfraMap, Node, NodeKind, ObservedMap, PlanError, Seen};
use moose_core::plan::{plan, plan_nodes, Change, PlanOptions};

fn node(kind: NodeKind, id: &str, fp: u64) -> Node {
    Node { kind, identity: id.to_string(), fingerprint: fp, parent: None }
}

fn dependent(kind: NodeKind, id: &str, fp: u64, table: &str) -> Node {
    Node { kind, identity: id.to_string(), fingerprint: fp, parent: Some(table.to_string()) }
}

fn seen(kind: NodeKind, id: &str, fp: Option<u64>) -> Seen {
    Seen { kind, identity: id.to_string(), fingerprint: fp }
}

fn describe(c: &Change) -> (&'static str, NodeKind, String) {
    match c {
        Change::Create { kind, identity, .. } => ("create", *kind, identity.clone()),
        Change::Update { kind, identity, .. } => ("update", *kind, identity.clone()),
        Change::Delete { kind, identity, .. } => ("delete", *kind, identity.clone()),
    }
}

const SAFE: PlanOptions = PlanOptions { allow_destructive: false, in_place_updates: false };
const RISKY: PlanOptions = PlanOptions { allow_destructive: true, in_place_updates: false };
const ADDITIVE: PlanOptions = PlanOptions { allow_destructive: false, in_place_updates: true };

/// The desired map of one model `UserActivity`, inserted in an arbitrary order.
fn user_activity(table_fp: u64) -> InfraMap {
    let mut d = InfraMap::new();
    d.insert(node(NodeKind::IngestionRoute, "/ingest/UserActivity", 4)).unwrap();
    d.insert(dependent(NodeKind::SyncJob, "UserActivity->UserActivity", 3, "UserActivity")).unwrap();
    d.insert(node(NodeKind::Table, "UserActivity", table_fp)).unwrap();
    d.insert(node(NodeKind::Topic, "UserActivity_0_0", 1)).unwrap();
    d
}

#[test]
fn empty_project_plans_nothing() {
    let r = plan(&ObservedMap::new(), &InfraMap::new(), SAFE).unwrap();
    assert!(r.is_empty());
}

#[test]
fn one_model_on_empty_externals_creates_in_prerequisite_order() {
    let r = plan(&ObservedMap::new(), &user_activity(2), SAFE).unwrap();
    let got: Vec<_> = r.iter().map(describe).collect();
    assert_eq!(
        got,
        vec![
            ("create", NodeKind::Topic, "UserActivity_0_0".to_string()),
            ("create", NodeKind::Table, "UserActivity".to_string()),
            ("create", NodeKind::SyncJob, "UserActivity->UserActivity".to_string()),
            ("create", NodeKind::IngestionRoute, "/ingest/UserActivity".to_string()),
        ]
    );
}

#[test]
fn existing_identical_table_is_not_created() {
    let mut o = ObservedMap::new();
    o.insert(seen(NodeKind::Table, "UserActivity", Some(2))).unwrap();
    let r = plan(&o, &user_activity(2), SAFE).unwrap();
    let got: Vec<_> = r.iter().map(describe).collect();
    assert_eq!(
        got,
        vec![
            ("create", NodeKind::Topic, "UserActivity_0_0".to_string()),
            ("create", NodeKind::SyncJob, "UserActivity->UserActivity".to_string()),
            ("create", NodeKind::IngestionRoute, "/ingest/UserActivity".to_string()),
        ]
    );
}

fn converged_observed(table_fp: u64) -> ObservedMap {
    let mut o = ObservedMap::new();
    o.insert(seen(NodeKind::Topic, "UserActivity_0_0", Some(1))).unwrap();
    o.insert(seen(NodeKind::Table, "UserActivity", Some(table_fp))).unwrap();
    o.insert(seen(NodeKind::SyncJob, "UserActivity->UserActivity", Some(3))).unwrap();
    o.insert(seen(NodeKind::IngestionRoute, "/ingest/UserActivity", Some(4))).unwrap();
    o
}

#[test]
fn added_column_updates_table_in_place_when_supported() {
    let r = plan(&converged_observed(2), &user_activity(5), ADDITIVE).unwrap();
    assert_eq!(r.len(), 1);
    match &r[0] {
        Change::Update { kind, identity, from, to } => {
            assert_eq!(*kind, NodeKind::Table);
            assert_eq!(identity, "UserActivity");
            assert_eq!((*from, *to), (2, 5));
        }
        other => panic!("unexpected change {:?}", other),
    }
}

#[test]
fn added_column_without_in_place_support_is_destructive() {
    let r = plan(&converged_observed(2), &user_activity(5), SAFE);
    assert_eq!(r.unwrap_err(), PlanError::DestructiveNotAllowed);
    let r = plan(&converged_observed(2), &user_activity(5), RISKY).unwrap();
    let got: Vec<_> = r.iter().map(describe).collect();
    assert_eq!(
        got,
        vec![
            ("delete", NodeKind::SyncJob, "UserActivity->UserActivity".to_string()),
            ("delete", NodeKind::Table, "UserActivity".to_string()),
            ("create", NodeKind::Table, "UserActivity".to_string()),
            ("create", NodeKind::SyncJob, "UserActivity->UserActivity".to_string()),
        ]
    );
    assert!(matches!(r[0], Change::Delete { destructive: false, .. }));
    assert!(matches!(r[1], Change::Delete { destructive: true, .. }));
}

#[test]
fn converged_state_plans_nothing() {
    let r = plan(&converged_observed(2), &user_activity(2), SAFE).unwrap();
    assert!(r.is_empty());
}

#[test]
fn deletes_come_last_in_reverse_prerequisite_order() {
    let mut o = ObservedMap::new();
    o.insert(seen(NodeKind::Topic, "Old_0_0", Some(1))).unwrap();
    o.insert(seen(NodeKind::SyncJob, "Old->Old", Some(3))).unwrap();
    o.insert(seen(NodeKind::IngestionRoute, "/ingest/Old", Some(4))).unwrap();
    let mut d = InfraMap::new();
    d.insert(node(NodeKind::Topic, "New_0_0", 7)).unwrap();
    let r = plan(&o, &d, RISKY).unwrap();
    let got: Vec<_> = r.iter().map(describe).collect();
    assert_eq!(
        got,
        vec![
            ("create", NodeKind::Topic, "New_0_0".to_string()),
            ("delete", NodeKind::IngestionRoute, "/ingest/Old".to_string()),
            ("delete", NodeKind::SyncJob, "Old->Old".to_string()),
            ("delete", NodeKind::Topic, "Old_0_0".to_string()),
        ]
    );
    assert!(matches!(r[1], Change::Delete { destructive: false, .. }));
    assert!(matches!(r[3], Change::Delete { destructive: true, .. }));
}

#[test]
fn deleting_a_topic_needs_consent() {
    let mut o = ObservedMap::new();
    o.insert(seen(NodeKind::Topic, "Old_0_0", Some(1))).unwrap();
    assert_eq!(plan(&o, &InfraMap::new(), SAFE).unwrap_err(), PlanError::DestructiveNotAllowed);
}

#[test]
fn deleting_a_route_needs_no_consent() {
    let mut o = ObservedMap::new();
    o.insert(seen(NodeKind::IngestionRoute, "/ingest/Old", Some(1))).unwrap();
    let r = plan(&o, &InfraMap::new(), SAFE).unwrap();
    assert_eq!(r.len(), 1);
}

#[test]
fn unreadable_table_is_recreated_when_desired_and_never_deleted() {
    let mut o = ObservedMap::new();
    o.insert(seen(NodeKind::Table, "UserActivity", None)).unwrap();
    o.insert(seen(NodeKind::Table, "Mystery", None)).unwrap();
    let mut d = InfraMap::new();
    d.insert(node(NodeKind::Table, "UserActivity", 2)).unwrap();
    let r = plan(&o, &d, SAFE).unwrap();
    let got: Vec<_> = r.iter().map(describe).collect();
    assert_eq!(got, vec![("create", NodeKind::Table, "UserActivity".to_string())]);
}

#[test]
fn planning_twice_gives_the_same_changes() {
    let o = converged_observed(2);
    let d = user_activity(9);
    let a = plan(&o, &d, RISKY).unwrap();
    let b = plan(&o, &d, RISKY).unwrap();
    assert_eq!(format!("{:?}", a), format!("{:?}", b));
}

#[test]
fn duplicate_identity_is_refused() {
    let mut d = InfraMap::new();
    d.insert(node(NodeKind::Table, "T", 1)).unwrap();
    assert_eq!(d.insert(node(NodeKind::Table, "T", 2)), Err(PlanError::DuplicateIdentity));
    assert_eq!(d.nodes().len(), 1);
    d.insert(node(NodeKind::Topic, "T", 2)).unwrap();
    assert_eq!(d.nodes().len(), 2);
    let mut o = ObservedMap::new();
    o.insert(seen(NodeKind::Table, "T", None)).unwrap();
    assert_eq!(o.insert(seen(NodeKind::Table, "T", Some(1))), Err(PlanError::DuplicateIdentity));
}

#[test]
fn map_keeps_prerequisite_order() {
    let d = user_activity(2);
    let kinds: Vec<NodeKind> = d.nodes().iter().map(|n| n.kind).collect();
    assert_eq!(
        kinds,
        vec![NodeKind::Topic, NodeKind::Table, NodeKind::SyncJob, NodeKind::IngestionRoute]
    );
}

#[test]
fn applying_the_plan_converges_in_one_round() {
    // Observed: stale table, an extra route; desired: the one-model map.
    let mut o = ObservedMap::new();
    o.insert(seen(NodeKind::Table, "UserActivity", Some(1))).unwrap();
    o.insert(seen(NodeKind::IngestionRoute, "/ingest/Gone", Some(8))).unwrap();
    let d = user_activity(2);
    let changes = plan(&o, &d, RISKY).unwrap();
    // Apply the changes to a simple model of the externals.
    let mut state: Vec<(NodeKind, String, u64)> = o
        .nodes()
        .iter()
        .map(|s| (s.kind, s.identity.clone(), s.fingerprint.unwrap()))
        .collect();
    for c in &changes {
        match c {
            Change::Create { kind, identity, fingerprint } => {
                state.push((*kind, identity.clone(), *fingerprint))
            }
            Change::Update { kind, identity, to, .. } => {
                for e in state.iter_mut() {
                    if e.0 == *kind && e.1 == *identity {
                        e.2 = *to;
                    }
                }
            }
            Change::Delete { kind, identity, .. } => {
                state.retain(|e| !(e.0 == *kind && e.1 == *identity))
            }
        }
    }
    let mut o2 = ObservedMap::new();
    for (k, i, f) in state {
        o2.insert(Seen { kind: k, identity: i, fingerprint: Some(f) }).unwrap();
    }
    assert!(plan(&o2, &d, SAFE).unwrap().is_empty());
    assert_eq!(o2.nodes().len(), 4);
}

#[test]
fn plan_nodes_matches_plan() {
    let d = user_activity(2);
    let r = plan_nodes(&Vec::new(), d.nodes(), SAFE).unwrap();
    assert_eq!(r.len(), 4);
}

#[test]
fn identities_within_a_kind_are_ordered_lexicographically() {
    let mut d = InfraMap::new();
    d.insert(node(NodeKind::Table, "b", 1)).unwrap();
    d.insert(node(NodeKind::Topic, "z", 1)).unwrap();
    d.insert(node(NodeKind::Table, "ab", 1)).unwrap();
    d.insert(node(NodeKind::Table, "a", 1)).unwrap();
    d.insert(node(NodeKind::Topic, "B", 1)).unwrap();
    let ids: Vec<String> = d.nodes().iter().map(|n| n.identity.clone()).collect();
    assert_eq!(ids, vec!["B", "z", "a", "ab", "b"]);
    let r = plan(&ObservedMap::new(), &d, SAFE).unwrap();
    let got: Vec<String> = r.iter().map(|c| describe(c).2).collect();
    assert_eq!(got, vec!["B", "z", "a", "ab", "b"]);
}

#[test]
fn identity_comparison() {
    assert!(compare_ids(&"a".to_string(), &"b".to_string()) < 0);
    assert!(compare_ids(&"b".to_string(), &"ab".to_string()) > 0);
    assert!(compare_ids(&"ab".to_string(), &"abc".to_string()) < 0);
    assert_eq!(compare_ids(&"\u{e9}".to_string(), &"\u{e9}".to_string()), 0);
    assert!(compare_ids(&"".to_string(), &"a".to_string()) < 0);
    assert!(order(NodeKind::Topic, &"z".to_string(), NodeKind::Table, &"a".to_string()) < 0);
    assert_eq!(order(NodeKind::Table, &"a".to_string(), NodeKind::Table, &"a".to_string()), 0);
}

#[test]
fn replaced_table_and_sync_job_delete_dependents_first() {
    let mut d = InfraMap::new();
    d.insert(node(NodeKind::Topic, "UserActivity_0_0", 1)).unwrap();
    d.insert(node(NodeKind::Table, "UserActivity", 5)).unwrap();
    d.insert(node(NodeKind::SyncJob, "UserActivity->UserActivity", 6)).unwrap();
    d.insert(node(NodeKind::IngestionRoute, "/ingest/UserActivity", 4)).unwrap();
    let r = plan(&converged_observed(2), &d, RISKY).unwrap();
    let got: Vec<_> = r.iter().map(describe).collect();
    assert_eq!(
        got,
        vec![
            ("delete", NodeKind::SyncJob, "UserActivity->UserActivity".to_string()),
            ("delete", NodeKind::Table, "UserActivity".to_string()),
            ("create", NodeKind::Table, "UserActivity".to_string()),
            ("create", NodeKind::SyncJob, "UserActivity->UserActivity".to_string()),
        ]
    );
    assert!(matches!(r[0], Change::Delete { destructive: false, .. }));
    assert!(matches!(r[1], Change::Delete { destructive: true, .. }));
    assert_eq!(plan(&converged_observed(2), &d, SAFE).unwrap_err(), PlanError::DestructiveNotAllowed);
}

#[test]
fn deletions_within_a_kind_follow_identity_order() {
    let mut o = ObservedMap::new();
    o.insert(seen(NodeKind::Table, "b", Some(1))).unwrap();
    o.insert(seen(NodeKind::Table, "a", Some(1))).unwrap();
    o.insert(seen(NodeKind::SyncJob, "b->b", Some(1))).unwrap();
    o.insert(seen(NodeKind::SyncJob, "a->a", Some(1))).unwrap();
    let r = plan(&o, &InfraMap::new(), RISKY).unwrap();
    let got: Vec<_> = r.iter().map(describe).collect();
    assert_eq!(
        got,
        vec![
            ("delete", NodeKind::SyncJob, "a->a".to_string()),
            ("delete", NodeKind::SyncJob, "b->b".to_string()),
            ("delete", NodeKind::Table, "a".to_string()),
            ("delete", NodeKind::Table, "b".to_string()),
        ]
    );
}

#[test]
fn only_data_holding_nodes_are_updated_in_place() {
    let mut d = InfraMap::new();
    d.insert(node(NodeKind::Topic, "UserActivity_0_0", 1)).unwrap();
    d.insert(node(NodeKind::Table, "UserActivity", 5)).unwrap();
    d.insert(node(NodeKind::SyncJob, "UserActivity->UserActivity", 6)).unwrap();
    d.insert(node(NodeKind::IngestionRoute, "/ingest/UserActivity", 4)).unwrap();
    let r = plan(&converged_observed(2), &d, ADDITIVE).unwrap();
    let got: Vec<_> = r.iter().map(describe).collect();
    assert_eq!(
        got,
        vec![
            ("update", NodeKind::Table, "UserActivity".to_string()),
            ("delete", NodeKind::SyncJob, "UserActivity->UserActivity".to_string()),
            ("create", NodeKind::SyncJob, "UserActivity->UserActivity".to_string()),
        ]
    );
}
