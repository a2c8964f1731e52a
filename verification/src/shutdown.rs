//! What is kept of the tasks while the agent shuts down.

use vstd::prelude::*;
use vstd::string::*;

use std::collections::HashMap;

verus! {

/// The time that tasks get to end, in seconds.
pub const DRAIN_TIMEOUT_SECS: u64 = 5;

/// How a task ended that should not have.
#[derive(Clone, Debug, PartialEq)]
pub enum TaskError {
    /// It panicked.
    Panicked { name: String },
    /// It failed, with what it said.
    Failed { name: String, source: String },
}

/// What a [`TaskError`] says.
pub enum TaskFault {
    Panicked { name: Seq<char> },
    Failed { name: Seq<char>, source: Seq<char> },
}

impl View for TaskError {
    type V = TaskFault;

    open spec fn view(&self) -> TaskFault {
        match *self {
            TaskError::Panicked { name } => TaskFault::Panicked { name: name@ },
            TaskError::Failed { name, source } => TaskFault::Failed {
                name: name@,
                source: source@,
            },
        }
    }
}

impl TaskError {
    /// The message to show, without the source.
    pub fn message(&self) -> (m: String)
        ensures
            m@ == match self@ {
                TaskFault::Panicked { name } => "task `"@ + name + "` panicked"@,
                TaskFault::Failed { name, .. } => "task `"@ + name + "` failed"@,
            },
    {
        let mut m: String = "task `".to_owned();
        match self {
            TaskError::Panicked { name } => {
                m.append(name.as_str());
                m.append("` panicked");
            },
            TaskError::Failed { name, .. } => {
                m.append(name.as_str());
                m.append("` failed");
            },
        }
        m
    }
}

/// How a task ended.
#[derive(Clone, Debug, PartialEq)]
pub enum TaskOutcome {
    /// It is done.
    Done,
    /// It reported an error.
    Errored(TaskError),
    /// It panicked.
    Panicked,
    /// It was stopped.
    Stopped,
}

/// How a named task ended, from what it reported: nothing where it was gone before it could,
/// which is taken for a panic.
pub fn reported_outcome(name: String, report: Option<Result<(), String>>) -> (r: Result<
    (),
    TaskError,
>)
    ensures
        match (report, r) {
            (Some(Ok(())), Ok(())) => true,
            (Some(Err(said)), Err(e)) => e@ == (TaskFault::Failed { name: name@, source: said@ }),
            (None, Err(e)) => e@ == (TaskFault::Panicked { name: name@ }),
            _ => false,
        },
{
    match report {
        Some(Ok(())) => Ok(()),
        Some(Err(source)) => Err(TaskError::Failed { name, source }),
        None => Err(TaskError::Panicked { name }),
    }
}

/// The names of the running tasks, and the first error of those that ended.
pub struct Ledger {
    names: HashMap<u64, String>,
    first_error: Option<TaskError>,
}

/// The name of a task that was not registered.
pub open spec fn unknown_name() -> Seq<char> {
    "unknown"@
}

/// The name under which a task was registered.
pub open spec fn name_of(names: Map<u64, Seq<char>>, id: u64) -> Seq<char> {
    if names.contains_key(id) {
        names[id]
    } else {
        unknown_name()
    }
}

/// The error that an outcome stands for, if any.
pub open spec fn fault_of(names: Map<u64, Seq<char>>, id: u64, outcome: TaskOutcome) -> Option<
    TaskFault,
> {
    match outcome {
        TaskOutcome::Done => None,
        TaskOutcome::Errored(e) => Some(e@),
        TaskOutcome::Panicked => Some(TaskFault::Panicked { name: name_of(names, id) }),
        TaskOutcome::Stopped => None,
    }
}

impl Ledger {
    /// The names of the running tasks.
    pub closed spec fn names(self) -> Map<u64, Seq<char>> {
        self.names@.map_values(|s: String| s@)
    }

    /// The first error.
    pub closed spec fn error(self) -> Option<TaskFault> {
        match self.first_error {
            Some(e) => Some(e@),
            None => None,
        }
    }

    /// No task yet.
    pub fn new() -> (l: Ledger)
        ensures
            l.names() == Map::<u64, Seq<char>>::empty(),
            l.error() is None,
    {
        broadcast use vstd::std_specs::hash::group_hash_axioms;

        let l = Ledger { names: HashMap::new(), first_error: None };
        assert(l.names() =~= Map::<u64, Seq<char>>::empty());
        l
    }

    /// Registers a task under its id.
    pub fn register(&mut self, id: u64, name: String)
        ensures
            final(self).names() == old(self).names().insert(id, name@),
            final(self).error() == old(self).error(),
    {
        broadcast use vstd::std_specs::hash::group_hash_axioms;

        let ghost before = self.names();
        self.names.insert(id, name);
        assert(self.names() =~= before.insert(id, name@));
    }

    /// Records how a task ended. Of several errors the first is kept.
    pub fn record(&mut self, id: u64, outcome: TaskOutcome)
        ensures
            final(self).names() == old(self).names().remove(id),
            final(self).error() == match old(self).error() {
                Some(e) => Some(e),
                None => fault_of(old(self).names(), id, outcome),
            },
    {
        broadcast use vstd::std_specs::hash::group_hash_axioms;

        let ghost before = self.names();
        let name: String = match self.names.remove(&id) {
            Some(n) => n,
            None => "unknown".to_owned(),
        };
        assert(self.names() =~= before.remove(id));
        assert(name@ == name_of(before, id));
        if self.first_error.is_some() {
            return;
        }
        match outcome {
            TaskOutcome::Done => {},
            TaskOutcome::Errored(e) => {
                self.first_error = Some(e);
            },
            TaskOutcome::Panicked => {
                self.first_error = Some(TaskError::Panicked { name });
            },
            TaskOutcome::Stopped => {},
        }
    }

    /// The first error, if any task ended in one.
    pub fn into_result(self) -> (r: Result<(), TaskError>)
        ensures
            match r {
                Ok(()) => self.error() is None,
                Err(e) => self.error() == Some(e@),
            },
    {
        match self.first_error {
            Some(e) => Err(e),
            None => Ok(()),
        }
    }
}

/// The first error over a number of outcomes.
pub open spec fn first_fault(
    error: Option<TaskFault>,
    names: Map<u64, Seq<char>>,
    outcomes: Seq<(u64, TaskOutcome)>,
) -> Option<TaskFault>
    decreases outcomes.len(),
{
    if outcomes.len() == 0 {
        error
    } else {
        let (id, outcome) = outcomes[0];
        first_fault(
            match error {
                Some(e) => Some(e),
                None => fault_of(names, id, outcome),
            },
            names.remove(id),
            outcomes.drop_first(),
        )
    }
}

/// An error, once recorded, stays whatever ends later.
pub proof fn first_error_is_kept(
    e: TaskFault,
    names: Map<u64, Seq<char>>,
    outcomes: Seq<(u64, TaskOutcome)>,
)
    ensures
        first_fault(Some(e), names, outcomes) == Some(e),
    decreases outcomes.len(),
{
    if outcomes.len() > 0 {
        first_error_is_kept(e, names.remove(outcomes[0].0), outcomes.drop_first());
    }
}

/// What a task ended in decides where nothing was recorded before: an error with what it says, a
/// panic with the name under which the task was registered, or "unknown" where it was not. A task
/// that is done or was stopped leaves it to those that end later.
pub proof fn the_first_to_fail_is_reported(
    names: Map<u64, Seq<char>>,
    id: u64,
    name: Seq<char>,
    e: TaskError,
    later: Seq<(u64, TaskOutcome)>,
)
    ensures
        first_fault(None, names, seq![(id, TaskOutcome::Errored(e))] + later) == Some(e@),
        first_fault(None, names.insert(id, name), seq![(id, TaskOutcome::Panicked)] + later) == Some(
            TaskFault::Panicked { name },
        ),
        first_fault(None, names.remove(id), seq![(id, TaskOutcome::Panicked)] + later) == Some(
            TaskFault::Panicked { name: "unknown"@ },
        ),
        first_fault(None, names, seq![(id, TaskOutcome::Done)] + later) == first_fault(
            None,
            names.remove(id),
            later,
        ),
        first_fault(None, names, seq![(id, TaskOutcome::Stopped)] + later) == first_fault(
            None,
            names.remove(id),
            later,
        ),
        first_fault(None, names, Seq::empty()) is None,
{
    assert((seq![(id, TaskOutcome::Errored(e))] + later).drop_first() =~= later);
    assert((seq![(id, TaskOutcome::Panicked)] + later).drop_first() =~= later);
    assert((seq![(id, TaskOutcome::Done)] + later).drop_first() =~= later);
    assert((seq![(id, TaskOutcome::Stopped)] + later).drop_first() =~= later);
    first_error_is_kept(e@, names.remove(id), later);
    first_error_is_kept(
        TaskFault::Panicked { name },
        names.insert(id, name).remove(id),
        later,
    );
    first_error_is_kept(
        TaskFault::Panicked { name: "unknown"@ },
        names.remove(id).remove(id),
        later,
    );
}

} // verus!
