use moose_core::infra::{InfraMap, NodeKind, ObservedMap, PlanError, Seen};
use moose_core::model::{add_models, add_nodes, inventory, model_nodes, version_sync_node, DataModel};
use moose_core::plan::{plan, Change, PlanOptions};
use moose_core::schema::{fingerprint, normalize, Column};

fn col(name: &str, t: &str) -> Column {
    Column { name: name.to_string(), data_type: t.to_string() }
}

fn user_activity(extra: bool) -> DataModel {
    let mut columns = vec![col("ts", "DateTime"), col("id", "String")];
    if extra {
        columns.push(col("session", "String"));
    }
    DataModel { name: "UserActivity".to_string(), version_tag: "0_0".to_string(), current: true, columns }
}

fn describe(c: &Change) -> (&'static str, NodeKind, String) {
    match c {
        Change::Create { kind, identity, .. } => ("create", *kind, identity.clone()),
        Change::Update { kind, identity, .. } => ("update", *kind, identity.clone()),
        Change::Delete { kind, identity, .. } => ("delete", *kind, identity.clone()),
    }
}

const RISKY: PlanOptions = PlanOptions { allow_destructive: true, in_place_updates: false };

fn desired(extra: bool) -> InfraMap {
    let mut d = InfraMap::new();
    add_models(&mut d, &vec![user_activity(extra)]).unwrap();
    d
}

fn observed_from(d: &InfraMap) -> ObservedMap {
    let mut o = ObservedMap::new();
    for n in d.nodes() {
        o.insert(Seen { kind: n.kind, identity: n.identity.clone(), fingerprint: Some(n.fingerprint) })
            .unwrap();
    }
    o
}

#[test]
fn model_gives_topic_table_sync_and_route() {
    let nodes = model_nodes(&user_activity(false));
    let ids: Vec<(NodeKind, String)> = nodes.iter().map(|n| (n.kind, n.identity.clone())).collect();
    assert_eq!(
        ids,
        vec![
            (NodeKind::Topic, "UserActivity_0_0".to_string()),
            (NodeKind::Table, "UserActivity".to_string()),
            (NodeKind::SyncJob, "UserActivity->UserActivity".to_string()),
            (NodeKind::IngestionRoute, "/ingest/UserActivity".to_string()),
        ]
    );
    assert_eq!(nodes[2].parent, Some("UserActivity".to_string()));
    assert_eq!(nodes[0].parent, None);
    assert_eq!(nodes[2].fingerprint, 0);
}

#[test]
fn one_model_on_empty_externals_plans_four_creations() {
    let r = plan(&ObservedMap::new(), &desired(false), RISKY).unwrap();
    let got: Vec<_> = r.iter().map(describe).collect();
    assert_eq!(
        got,
        vec![
            ("create", NodeKind::Topic, "UserActivity_0_0".to_string()),
            ("create", NodeKind::Table, "UserActivity".to_string()),
            ("create", NodeKind::SyncJob, "UserActivity->UserActivity".to_string()),
            ("create", NodeKind::IngestionRoute, "/ingest/UserActivity".to_string()),
        ]
    );
}

#[test]
fn added_column_replaces_sync_job_and_table() {
    let o = observed_from(&desired(false));
    let r = plan(&o, &desired(true), RISKY).unwrap();
    let got: Vec<_> = r.iter().map(describe).collect();
    assert_eq!(
        got,
        vec![
            ("delete", NodeKind::SyncJob, "UserActivity->UserActivity".to_string()),
            ("delete", NodeKind::Table, "UserActivity".to_string()),
            ("create", NodeKind::Table, "UserActivity".to_string()),
            ("create", NodeKind::SyncJob, "UserActivity->UserActivity".to_string()),
        ]
    );
}

#[test]
fn column_order_does_not_change_the_plan() {
    let o = observed_from(&desired(false));
    let mut swapped = InfraMap::new();
    let m = DataModel {
        name: "UserActivity".to_string(),
        version_tag: "0_0".to_string(),
        current: true,
        columns: vec![col("id", "String"), col("ts", "DateTime")],
    };
    add_models(&mut swapped, &vec![m]).unwrap();
    assert!(plan(&o, &swapped, RISKY).unwrap().is_empty());
}

#[test]
fn same_model_twice_is_a_duplicate() {
    let mut d = InfraMap::new();
    let r = add_models(&mut d, &vec![user_activity(false), user_activity(true)]);
    assert_eq!(r, Err(PlanError::DuplicateIdentity));
}

const ADDITIVE: PlanOptions = PlanOptions { allow_destructive: false, in_place_updates: true };

#[test]
fn added_column_is_one_in_place_update_when_supported() {
    let o = observed_from(&desired(false));
    let r = plan(&o, &desired(true), ADDITIVE).unwrap();
    let got: Vec<_> = r.iter().map(describe).collect();
    assert_eq!(got, vec![("update", NodeKind::Table, "UserActivity".to_string())]);
    assert!(matches!(r[0], Change::Update { .. }));
}

#[test]
fn previous_versions_have_their_own_identities() {
    let old = DataModel {
        name: "UserActivity".to_string(),
        version_tag: "0_0".to_string(),
        current: false,
        columns: vec![col("id", "String")],
    };
    let new = DataModel {
        name: "UserActivity".to_string(),
        version_tag: "0_1".to_string(),
        current: true,
        columns: vec![col("id", "String"), col("ts", "DateTime")],
    };
    let ids: Vec<String> = model_nodes(&old).iter().map(|n| n.identity.clone()).collect();
    assert_eq!(
        ids,
        vec![
            "UserActivity_0_0",
            "UserActivity_0_0",
            "UserActivity_0_0->UserActivity_0_0",
            "/ingest/UserActivity/0_0",
        ]
    );
    let mut d = InfraMap::new();
    assert_eq!(add_models(&mut d, &vec![old, new]), Ok(()));
    assert_eq!(d.nodes().len(), 8);
}

#[test]
fn models_clashing_with_the_map_fail() {
    let mut d = desired(false);
    assert_eq!(add_models(&mut d, &vec![user_activity(true)]), Err(PlanError::DuplicateIdentity));
}

#[test]
fn inventory_lists_table_and_schema_fingerprint() {
    let m = user_activity(false);
    let expected = fingerprint(&normalize(&m.columns));
    let inv = inventory(&vec![m]);
    assert_eq!(inv, vec![("UserActivity".to_string(), expected)]);
}

#[test]
fn version_sync_worker_is_a_dependent_sync_job() {
    let n = version_sync_node(&"UserActivity_0_0".to_string(), &"UserActivity".to_string());
    assert_eq!(n.kind, NodeKind::SyncJob);
    assert_eq!(n.identity, "UserActivity_0_0->UserActivity");
    assert_eq!(n.parent, Some("UserActivity".to_string()));
}

#[test]
fn add_nodes_refuses_clashes_and_keeps_fresh_ones() {
    let mut d = desired(false);
    let a = version_sync_node(&"UserActivity_0_0".to_string(), &"UserActivity".to_string());
    assert_eq!(add_nodes(&mut d, vec![a]), Ok(()));
    assert_eq!(d.nodes().len(), 5);
    let b = version_sync_node(&"UserActivity_0_0".to_string(), &"UserActivity".to_string());
    let c = version_sync_node(&"X".to_string(), &"Y".to_string());
    let c2 = version_sync_node(&"X".to_string(), &"Y".to_string());
    assert_eq!(add_nodes(&mut d, vec![b]), Err(PlanError::DuplicateIdentity));
    let mut e = InfraMap::new();
    assert_eq!(add_nodes(&mut e, vec![c, c2]), Err(PlanError::DuplicateIdentity));
}

#[test]
fn replaced_target_table_replaces_version_sync_worker() {
    let mut d = desired(false);
    add_nodes(&mut d, vec![version_sync_node(&"UserActivity_0_0".to_string(), &"UserActivity".to_string())])
        .unwrap();
    let o = observed_from(&d);
    let mut d2 = desired(true);
    add_nodes(&mut d2, vec![version_sync_node(&"UserActivity_0_0".to_string(), &"UserActivity".to_string())])
        .unwrap();
    let r = plan(&o, &d2, RISKY).unwrap();
    let got: Vec<_> = r.iter().map(describe).collect();
    assert_eq!(
        got,
        vec![
            ("delete", NodeKind::SyncJob, "UserActivity->UserActivity".to_string()),
            ("delete", NodeKind::SyncJob, "UserActivity_0_0->UserActivity".to_string()),
            ("delete", NodeKind::Table, "UserActivity".to_string()),
            ("create", NodeKind::Table, "UserActivity".to_string()),
            ("create", NodeKind::SyncJob, "UserActivity->UserActivity".to_string()),
            ("create", NodeKind::SyncJob, "UserActivity_0_0->UserActivity".to_string()),
        ]
    );
}
