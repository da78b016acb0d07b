use vstd::prelude::*;
use vstd::string::StringExecFns;

verus! {

/// The kind of a message shown to the user.
#[derive(Clone, Copy, Debug, PartialEq, Eq, Structural)]
pub enum MessageType {
    Info,
    Success,
    Error,
    Highlight,
}

/// A message for the user: a short action word and its details.
#[derive(Debug)]
pub struct Message {
    pub action: String,
    pub details: String,
}

impl Message {
    pub fn new(action: String, details: String) -> (r: Message)
        ensures
            r.action@ == action@,
            r.details@ == details@,
    {
        Message { action, details }
    }

    pub fn copy(&self) -> (r: Message)
        ensures
            r.action@ == self.action@,
            r.details@ == self.details@,
    {
        Message { action: self.action.clone(), details: self.details.clone() }
    }
}

#[verifier::external_type_specification]
#[verifier::external_body]
pub struct ExAnyhowError(anyhow::Error);

/// Relies on `Display for anyhow::Error`: the error's top-level message as text.
#[verifier::external_body]
fn error_text(e: &anyhow::Error) -> (r: String) {
    format!("{}", e)
}

/// The successful outcome of a routine, with the message to show for it.
#[derive(Debug)]
pub struct RoutineSuccess {
    pub message: Message,
    pub message_type: MessageType,
}

impl RoutineSuccess {
    /// An informative outcome, e.g. a resource that already existed.
    pub fn info(message: Message) -> (r: Self)
        ensures
            r.message == message,
            r.message_type == MessageType::Info,
    {
        Self { message, message_type: MessageType::Info }
    }

    pub fn success(message: Message) -> (r: Self)
        ensures
            r.message == message,
            r.message_type == MessageType::Success,
    {
        Self { message, message_type: MessageType::Success }
    }

    pub fn highlight(message: Message) -> (r: Self)
        ensures
            r.message == message,
            r.message_type == MessageType::Highlight,
    {
        Self { message, message_type: MessageType::Highlight }
    }

    /// What is to be shown for this outcome: its type and its message.
    pub fn show(&self) -> (r: (MessageType, Message))
        ensures
            r.0 == self.message_type,
            r.1.action@ == self.message.action@,
            r.1.details@ == self.message.details@,
    {
        (self.message_type, self.message.copy())
    }
}

/// The failed outcome of a routine, with the message to show and the cause, if any.
#[derive(Debug)]
pub struct RoutineFailure {
    pub message: Message,
    pub message_type: MessageType,
    pub error: Option<anyhow::Error>,
}

impl RoutineFailure {
    pub fn new(message: Message, error: anyhow::Error) -> (r: Self)
        ensures
            r.message == message,
            r.message_type == MessageType::Error,
            r.error == Some(error),
    {
        Self { message, message_type: MessageType::Error, error: Some(error) }
    }

    /// A failure without an underlying error.
    pub fn error(message: Message) -> (r: Self)
        ensures
            r.message == message,
            r.message_type == MessageType::Error,
            r.error.is_none(),
    {
        Self { message, message_type: MessageType::Error, error: None }
    }
}

/// The details of a failure followed by the text of its cause.
pub fn details_with_cause(details: &String, cause: &String) -> (r: String)
    ensures
        r@ == details@ + ": "@ + cause@,
{
    let r = details.clone();
    let r = r.concat(": ");
    proof {
        reveal_strlit(": ");
    }
    r.concat(cause.as_str())
}

/// What is shown for the outcome of a routine run explicitly: its message, and for a
/// failure with a cause, the details followed by the text of the cause.
pub fn explicit_message(outcome: &Result<RoutineSuccess, RoutineFailure>) -> (r: (
    MessageType,
    Message,
))
    ensures
        outcome is Ok ==> r.0 == outcome->Ok_0.message_type && r.1.action@
            == outcome->Ok_0.message.action@ && r.1.details@ == outcome->Ok_0.message.details@,
        outcome is Err ==> r.0 == outcome->Err_0.message_type && r.1.action@
            == outcome->Err_0.message.action@,
        outcome is Err && outcome->Err_0.error is None ==> r.1.details@
            == outcome->Err_0.message.details@,
        outcome is Err && outcome->Err_0.error is Some ==> exists|t: Seq<char>|
            r.1.details@ == outcome->Err_0.message.details@ + ": "@ + t,
{
    match outcome {
        Ok(success) => success.show(),
        Err(failure) => {
            let details = match &failure.error {
                None => failure.message.details.clone(),
                Some(e) => {
                    let t = error_text(e);
                    let d = details_with_cause(&failure.message.details, &t);
                    assert(d@ == failure.message.details@ + ": "@ + t@);
                    d
                },
            };
            (failure.message_type, Message::new(failure.message.action.clone(), details))
        },
    }
}

/// How a routine is run: explicitly runs show their outcome to the user.
#[derive(Clone, Copy, Debug, PartialEq, Eq, Structural)]
pub enum RunMode {
    Explicit,
}

/// A unit of work of the command line: a sequence of operations with one outcome.
pub trait Routine {
    /// Runs the routine without showing anything.
    fn run_silent(&self) -> Result<RoutineSuccess, RoutineFailure>;
}

/// Runs a routine in the given mode; the outcome is that of the routine itself.
pub fn run_routine<R: Routine>(routine: &R, mode: RunMode) -> Result<RoutineSuccess, RoutineFailure> {
    match mode {
        RunMode::Explicit => routine.run_silent(),
    }
}

/// An ordered collection of routines, run one after the other.
pub struct RoutineController<R> {
    routines: Vec<R>,
}

impl<R> View for RoutineController<R> {
    type V = Seq<R>;

    closed spec fn view(&self) -> Seq<R> {
        self.routines@
    }
}

impl<R: Routine> RoutineController<R> {
    pub fn new() -> (r: Self)
        ensures
            r@ == Seq::<R>::empty(),
    {
        Self { routines: Vec::new() }
    }

    pub fn add_routine(&mut self, routine: R)
        ensures
            final(self)@ == old(self)@.push(routine),
    {
        self.routines.push(routine);
    }

    /// Runs every routine once, in the order they were added, and returns their
    /// outcomes in that order.
    pub fn run_routines(&self, run_mode: RunMode) -> (r: Vec<Result<RoutineSuccess, RoutineFailure>>)
        ensures
            r@.len() == self@.len(),
    {
        let mut results: Vec<Result<RoutineSuccess, RoutineFailure>> = Vec::new();
        let mut i: usize = 0;
        while i < self.routines.len()
            invariant
                i <= self.routines@.len(),
                results@.len() == i,
            decreases self.routines@.len() - i,
        {
            results.push(run_routine(&self.routines[i], run_mode));
            i = i + 1;
        }
        results
    }
}

} // verus!
