use moose_core::aggregation::{runner_args, ClickHouseConfig};
use moose_core::lines::{strip_cr, LineBuffer};
use moose_core::orchestrator::{
    aggregations_dir_name, next_phase, Event, ExecutionPass, Features, PassScheduler, PassStep, Timeouts,
    Phase,
};
use moose_core::registry::{specs_match, Child, ProcessAction, ProcessRegistry, ProcessSpec};
use moose_core::infra::NodeKind;
use moose_core::plan::{Change, PlanOptions};
use moose_core::routes::{route_op_for, RouteError, RouteMeta, RouteOp, RouteTable};

fn meta(model: &str) -> RouteMeta {
    RouteMeta {
        model_name: model.to_string(),
        version: "0.0".to_string(),
        topic: format!("{}_0_0", model),
        columns: vec!["id".to_string(), "ts".to_string()],
        file_path: format!("app/datamodels/{}.ts", model),
    }
}

#[test]
fn route_is_served_once_added() {
    let mut t = RouteTable::new();
    let path = "/ingest/UserActivity".to_string();
    assert!(t.get(&path).is_none());
    let u = t.add(path.clone(), meta("UserActivity")).unwrap();
    assert_eq!(u.op, RouteOp::Add);
    assert_eq!(u.path, path);
    assert_eq!(u.meta.model_name, "UserActivity");
    assert_eq!(u.meta.columns, vec!["id".to_string(), "ts".to_string()]);
    assert_eq!(t.get(&path).unwrap().model_name, "UserActivity");
    t.add("/ingest/Other".to_string(), meta("Other")).unwrap();
    t.remove(&"/ingest/Other".to_string()).unwrap();
    assert!(t.get(&path).is_some());
}

#[test]
fn route_collision_fails() {
    let mut t = RouteTable::new();
    t.add("/ingest/A".to_string(), meta("A")).unwrap();
    let e = t.add("/ingest/A".to_string(), meta("B")).unwrap_err();
    assert_eq!(e, RouteError::Collision);
    assert_eq!(t.get(&"/ingest/A".to_string()).unwrap().model_name, "A");
}

#[test]
fn route_paths_are_case_sensitive() {
    let mut t = RouteTable::new();
    t.add("/ingest/A".to_string(), meta("A")).unwrap();
    t.add("/ingest/a".to_string(), meta("a")).unwrap();
    assert_eq!(t.get(&"/ingest/a".to_string()).unwrap().model_name, "a");
}

#[test]
fn route_remove_and_replace() {
    let mut t = RouteTable::new();
    assert_eq!(t.remove(&"/x".to_string()).unwrap_err(), RouteError::NotFound);
    assert_eq!(t.replace("/x".to_string(), meta("X")).unwrap_err(), RouteError::NotFound);
    t.add("/x".to_string(), meta("X")).unwrap();
    let u = t.replace("/x".to_string(), meta("Y")).unwrap();
    assert_eq!(u.op, RouteOp::Replace);
    assert_eq!(u.meta.topic, "Y_0_0");
    assert_eq!(t.get(&"/x".to_string()).unwrap().model_name, "Y");
    let u = t.remove(&"/x".to_string()).unwrap();
    assert_eq!(u.op, RouteOp::Remove);
    assert_eq!(u.meta.model_name, "Y");
    assert!(t.get(&"/x".to_string()).is_none());
}

fn spec(args: &[&str]) -> ProcessSpec {
    ProcessSpec { program: "python3".to_string(), args: args.iter().map(|a| a.to_string()).collect() }
}

#[test]
fn starting_twice_with_same_spec_keeps_one_child() {
    let mut r = ProcessRegistry::new();
    assert_eq!(r.start("UserActivity".to_string(), spec(&["a"])), ProcessAction::Spawn);
    assert_eq!(r.start("UserActivity".to_string(), spec(&["a"])), ProcessAction::Keep);
    assert_eq!(r.list(), vec!["UserActivity".to_string()]);
}

#[test]
fn starting_with_changed_spec_replaces() {
    let mut r = ProcessRegistry::new();
    r.start("f".to_string(), spec(&["a"]));
    assert_eq!(r.start("f".to_string(), spec(&["b"])), ProcessAction::Replace);
    assert_eq!(r.start("f".to_string(), spec(&["b"])), ProcessAction::Keep);
    assert_eq!(r.list().len(), 1);
}

#[test]
fn stop_is_idempotent() {
    let mut r = ProcessRegistry::new();
    r.start("f".to_string(), spec(&[]));
    r.start("g".to_string(), spec(&[]));
    assert_eq!(r.stop(&"f".to_string()), ProcessAction::Terminate);
    assert_eq!(r.stop(&"f".to_string()), ProcessAction::Keep);
    assert_eq!(r.list(), vec!["g".to_string()]);
    assert!(r.record_exit(&"g".to_string()));
    assert!(!r.record_exit(&"g".to_string()));
    assert!(r.list().is_empty());
}

#[test]
fn spec_comparison() {
    assert!(specs_match(&spec(&["a", "b"]), &spec(&["a", "b"])));
    assert!(!specs_match(&spec(&["a", "b"]), &spec(&["a"])));
    assert!(!specs_match(&spec(&["a", "b"]), &spec(&["a", "c"])));
}

#[test]
fn burst_of_changes_gives_one_pass() {
    let mut s = PassScheduler::new();
    s.on_change(0);
    s.on_change(40);
    s.on_change(100);
    assert!(!s.poll(200));
    assert!(s.poll(350));
    assert!(!s.poll(700));
    s.finish();
    assert!(!s.poll(2000));
}

#[test]
fn changes_during_a_pass_wait_for_one_more_pass() {
    let mut s = PassScheduler::new();
    s.on_change(0);
    assert!(s.poll(250));
    s.on_change(300);
    s.on_change(310);
    assert!(!s.poll(1000));
    s.finish();
    assert!(s.poll(1000));
    s.finish();
    assert!(!s.poll(5000));
}

#[test]
fn execution_pass_applies_in_order_then_persists() {
    let mut p = ExecutionPass::new(2);
    assert_eq!(p.next(), PassStep::Apply(0));
    p.record_applied(true);
    assert_eq!(p.next(), PassStep::Apply(1));
    p.record_applied(true);
    assert_eq!(p.next(), PassStep::Persist);
    p.record_persisted();
    assert_eq!(p.next(), PassStep::Done);
}

#[test]
fn failed_change_halts_without_persisting() {
    let mut p = ExecutionPass::new(3);
    p.record_applied(true);
    p.record_applied(false);
    assert_eq!(p.next(), PassStep::Halt);
    assert_eq!(p.applied, 1);
}

#[test]
fn empty_plan_persists_at_once() {
    let p = ExecutionPass::new(0);
    assert_eq!(p.next(), PassStep::Persist);
}

#[test]
fn startup_walks_to_serving() {
    let mut p = Phase::Initializing;
    for expected in [
        Phase::Loading,
        Phase::Introspecting,
        Phase::Planning,
        Phase::Executing,
        Phase::Serving,
    ] {
        p = next_phase(p, Event::StepDone);
        assert_eq!(p, expected);
    }
    p = next_phase(p, Event::ProjectChanged);
    assert_eq!(p, Phase::Reconciling);
    assert_eq!(next_phase(p, Event::PassFailed), Phase::Serving);
    assert_eq!(next_phase(p, Event::PassSucceeded), Phase::Serving);
    assert_eq!(next_phase(p, Event::Terminate), Phase::Terminating);
}

#[test]
fn failed_startup_terminates() {
    assert_eq!(next_phase(Phase::Introspecting, Event::StepFailed), Phase::Terminating);
    assert_eq!(next_phase(Phase::Serving, Event::StepFailed), Phase::Serving);
    assert_eq!(next_phase(Phase::Terminating, Event::StepDone), Phase::Terminating);
}

#[test]
fn aggregations_directory_follows_flag() {
    let f = Features { core_v2: false, blocks: true };
    assert_eq!(aggregations_dir_name(f), "blocks");
    let f = Features { core_v2: true, blocks: false };
    assert_eq!(aggregations_dir_name(f), "aggregations");
}

#[test]
fn lines_come_out_in_order_across_chunks() {
    let mut b = LineBuffer::new();
    let l1 = b.push(b"first\nsec");
    assert_eq!(l1, vec![b"first".to_vec()]);
    let l2 = b.push(b"ond\nthird\n\nfou");
    assert_eq!(l2, vec![b"second".to_vec(), b"third".to_vec(), Vec::new()]);
    assert_eq!(b.finish(), Some(b"fou".to_vec()));
    assert_eq!(b.finish(), None);
}

#[test]
fn empty_chunk_gives_no_line() {
    let mut b = LineBuffer::new();
    assert!(b.push(b"").is_empty());
    assert_eq!(b.finish(), None);
}

#[test]
fn timeouts_default_when_not_configured() {
    let t = Timeouts::resolve(None, Some(1000), None);
    assert_eq!(t.olap_ms, 30000);
    assert_eq!(t.bus_ms, 1000);
    assert_eq!(t.child_grace_ms, 5000);
}

#[test]
fn sync_workers_start_all_is_idempotent() {
    let children = |tag: &str| {
        vec![
            Child { id: "UserActivity->UserActivity".to_string(), spec: spec(&[tag]) },
            Child { id: "UserActivity_0_0->UserActivity_0_1".to_string(), spec: spec(&["v"]) },
        ]
    };
    let mut r = ProcessRegistry::new();
    assert_eq!(r.start_all(children("a")), vec![ProcessAction::Spawn, ProcessAction::Spawn]);
    assert_eq!(r.start_all(children("a")), vec![ProcessAction::Keep, ProcessAction::Keep]);
    assert_eq!(r.start_all(children("b")), vec![ProcessAction::Replace, ProcessAction::Keep]);
    assert_eq!(r.list().len(), 2);
}

#[test]
fn route_changes_map_to_route_updates() {
    let create = Change::Create {
        kind: NodeKind::IngestionRoute,
        identity: "/ingest/A".to_string(),
        fingerprint: 1,
    };
    assert_eq!(route_op_for(&create), Some(RouteOp::Add));
    let update = Change::Update {
        kind: NodeKind::ConsumptionApi,
        identity: "/consumption/a".to_string(),
        from: 1,
        to: 2,
    };
    assert_eq!(route_op_for(&update), Some(RouteOp::Replace));
    let delete = Change::Delete {
        kind: NodeKind::IngestionRoute,
        identity: "/ingest/A".to_string(),
        destructive: false,
    };
    assert_eq!(route_op_for(&delete), Some(RouteOp::Remove));
    let table = Change::Create { kind: NodeKind::Table, identity: "A".to_string(), fingerprint: 1 };
    assert_eq!(route_op_for(&table), None);
}

#[test]
fn carriage_return_is_stripped_once() {
    let mut l = b"line\r".to_vec();
    strip_cr(&mut l);
    assert_eq!(l, b"line".to_vec());
    strip_cr(&mut l);
    assert_eq!(l, b"line".to_vec());
    let mut e: Vec<u8> = Vec::new();
    strip_cr(&mut e);
    assert!(e.is_empty());
}

#[test]
fn runner_args_in_order() {
    let cfg = ClickHouseConfig {
        db_name: "local".to_string(),
        host: "localhost".to_string(),
        host_port: 18123,
        user: "panda".to_string(),
        password: "pandapass".to_string(),
        use_ssl: false,
    };
    assert_eq!(
        runner_args("app/aggregations".to_string(), &cfg),
        vec!["app/aggregations", "local", "localhost", "18123", "panda", "pandapass", "false"]
    );
    let neg = ClickHouseConfig { host_port: -5, use_ssl: true, ..cfg };
    let a = runner_args("p".to_string(), &neg);
    assert_eq!(a[3], "-5");
    assert_eq!(a[6], "true");
}

#[test]
fn production_never_allows_destruction() {
    let o = PlanOptions::for_run(true, true, true);
    assert!(!o.allow_destructive);
    assert!(o.in_place_updates);
    assert!(PlanOptions::for_run(true, false, false).allow_destructive);
}
