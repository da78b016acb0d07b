use moose_core::routines::{
    details_with_cause, explicit_message, run_routine, Message, MessageType, Routine, RoutineController,
    RoutineFailure, RoutineSuccess, RunMode,
};

fn msg(a: &str, d: &str) -> Message {
    Message::new(a.to_string(), d.to_string())
}

struct Hello;

impl Routine for Hello {
    fn run_silent(&self) -> Result<RoutineSuccess, RoutineFailure> {
        Ok(RoutineSuccess::success(msg("Hello", "world")))
    }
}

struct Broken;

impl Routine for Broken {
    fn run_silent(&self) -> Result<RoutineSuccess, RoutineFailure> {
        Err(RoutineFailure::error(msg("Failed", "to run")))
    }
}

enum Step {
    Hello(Hello),
    Broken(Broken),
}

impl Routine for Step {
    fn run_silent(&self) -> Result<RoutineSuccess, RoutineFailure> {
        match self {
            Step::Hello(h) => h.run_silent(),
            Step::Broken(b) => b.run_silent(),
        }
    }
}

#[test]
fn success_constructors_set_message_type() {
    assert_eq!(RoutineSuccess::info(msg("a", "b")).message_type, MessageType::Info);
    assert_eq!(RoutineSuccess::success(msg("a", "b")).message_type, MessageType::Success);
    assert_eq!(RoutineSuccess::highlight(msg("a", "b")).message_type, MessageType::Highlight);
}

#[test]
fn show_returns_type_and_message() {
    let s = RoutineSuccess::highlight(msg("Starting", "development mode"));
    let (t, m) = s.show();
    assert_eq!(t, MessageType::Highlight);
    assert_eq!(m.action, "Starting");
    assert_eq!(m.details, "development mode");
}

#[test]
fn failure_constructors() {
    let f = RoutineFailure::error(msg("Failed", "x"));
    assert_eq!(f.message_type, MessageType::Error);
    assert!(f.error.is_none());
    let g = RoutineFailure::new(msg("Failed", "x"), anyhow::Error::msg("boom"));
    assert_eq!(g.message_type, MessageType::Error);
    assert!(g.error.is_some());
}

#[test]
fn details_with_cause_joins_with_colon() {
    assert_eq!(details_with_cause(&"to start".to_string(), &"boom".to_string()), "to start: boom");
}

#[test]
fn explicit_message_of_failure_with_cause_shows_cause() {
    let outcome: Result<RoutineSuccess, RoutineFailure> =
        Err(RoutineFailure::new(msg("Failed", "to start"), anyhow::Error::msg("boom")));
    let (t, m) = explicit_message(&outcome);
    assert_eq!(t, MessageType::Error);
    assert_eq!(m.action, "Failed");
    assert_eq!(m.details, "to start: boom");
}

#[test]
fn explicit_message_of_failure_without_cause() {
    let outcome: Result<RoutineSuccess, RoutineFailure> =
        Err(RoutineFailure::error(msg("Failed", "to start")));
    let (_, m) = explicit_message(&outcome);
    assert_eq!(m.details, "to start");
}

#[test]
fn explicit_message_of_success() {
    let outcome: Result<RoutineSuccess, RoutineFailure> =
        Ok(RoutineSuccess::info(msg("No", "changes detected")));
    let (t, m) = explicit_message(&outcome);
    assert_eq!(t, MessageType::Info);
    assert_eq!(m.action, "No");
    assert_eq!(m.details, "changes detected");
}

#[test]
fn run_gives_routine_outcome() {
    let r = run_routine(&Hello, RunMode::Explicit);
    let s = r.unwrap();
    assert_eq!(s.message_type, MessageType::Success);
    assert_eq!(s.message.action, "Hello");
    assert_eq!(s.message.details, "world");
}

#[test]
fn controller_runs_routines_in_order() {
    let mut c = RoutineController::new();
    c.add_routine(Step::Hello(Hello));
    c.add_routine(Step::Broken(Broken));
    c.add_routine(Step::Hello(Hello));
    let results = c.run_routines(RunMode::Explicit);
    assert_eq!(results.len(), 3);
    assert!(results[0].is_ok());
    assert!(results[1].is_err());
    assert!(results[2].is_ok());
    assert_eq!(results[1].as_ref().err().unwrap().message.details, "to run");
}

#[test]
fn empty_controller_gives_no_results() {
    let c: RoutineController<Hello> = RoutineController::new();
    assert!(c.run_routines(RunMode::Explicit).is_empty());
}
