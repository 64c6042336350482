use vstd::prelude::*;
use crate::text::{chars_eq_str, chars_of, string_views};

verus! {

/// What the scheduler knows of a task.
#[derive(Debug, Clone, Copy, PartialEq, Eq, Structural)]
pub struct TaskStatus {
    /// The task is done (its results are collected, or it was cancelled).
    pub finished: bool,
    /// The task reported an error.
    pub failed: bool,
    /// The task was started and its results are not collected yet.
    pub running: bool,
}

/// What the scheduler does next with a task that stays in the list.
#[derive(Debug, Clone, Copy, PartialEq, Eq, Structural)]
pub enum TaskStep {
    /// Nothing: the task is done.
    Wait,
    /// Collect the results, if the task has them.
    Collect,
    /// Try to start the task.
    Start,
}

/// The indices, in order, of the first `n` tasks that are not finished: those stay in the list.
pub open spec fn kept_upto(st: Seq<TaskStatus>, n: int) -> Seq<usize>
    decreases n,
{
    if n <= 0 {
        seq![]
    } else if !st[n - 1].finished {
        kept_upto(st, n - 1).push((n - 1) as usize)
    } else {
        kept_upto(st, n - 1)
    }
}

/// The indices, in order, of the first `n` tasks that finished without an error: the tasks they
/// chain to are added to the list.
pub open spec fn chained_upto(st: Seq<TaskStatus>, n: int) -> Seq<usize>
    decreases n,
{
    if n <= 0 {
        seq![]
    } else if st[n - 1].finished && !st[n - 1].failed {
        chained_upto(st, n - 1).push((n - 1) as usize)
    } else {
        chained_upto(st, n - 1)
    }
}

/// How the task list is swept: which tasks stay, and whose chained tasks are added after them.
pub struct Sweep {
    pub kept: Vec<usize>,
    pub chained: Vec<usize>,
}

/// Sweeps the task list: finished tasks leave it, and those that finished without an error
/// have their chained tasks added (see [`kept_upto`] and [`chained_upto`]).
pub fn sweep_tasks(statuses: &Vec<TaskStatus>) -> (r: Sweep)
    ensures
        r.kept@ == kept_upto(statuses@, statuses@.len() as int),
        r.chained@ == chained_upto(statuses@, statuses@.len() as int),
{
    let mut kept: Vec<usize> = Vec::new();
    let mut chained: Vec<usize> = Vec::new();
    let mut i: usize = 0;
    while i < statuses.len()
        invariant
            i <= statuses@.len(),
            kept@ == kept_upto(statuses@, i as int),
            chained@ == chained_upto(statuses@, i as int),
        decreases statuses@.len() - i,
    {
        let s = statuses[i];
        if !s.finished {
            kept.push(i);
        }
        if s.finished && !s.failed {
            chained.push(i);
        }
        i += 1;
    }
    Sweep { kept, chained }
}

/// The next step for a task: nothing once it is done, collecting while it runs, starting
/// otherwise.
pub open spec fn spec_next_step(s: TaskStatus) -> TaskStep {
    if s.finished {
        TaskStep::Wait
    } else if s.running {
        TaskStep::Collect
    } else {
        TaskStep::Start
    }
}

/// The next step for a task (see [`spec_next_step`]).
pub fn next_step(s: TaskStatus) -> (r: TaskStep)
    ensures
        r == spec_next_step(s),
{
    if s.finished {
        TaskStep::Wait
    } else if s.running {
        TaskStep::Collect
    } else {
        TaskStep::Start
    }
}

/// Whether a task of the given name is in the list already, so that a second one is refused.
pub fn name_taken(names: &Vec<String>, name: &str) -> (r: bool)
    ensures
        r == string_views(names@).contains(name@),
{
    let mut i: usize = 0;
    while i < names.len()
        invariant
            i <= names@.len(),
            forall|j: int| 0 <= j < i ==> names@[j]@ != name@,
        decreases names@.len() - i,
    {
        let c = chars_of(names[i].as_str());
        if chars_eq_str(c.as_slice(), name) {
            assert(string_views(names@)[i as int] == name@);
            return true;
        }
        i += 1;
    }
    assert(!string_views(names@).contains(name@)) by {
        if string_views(names@).contains(name@) {
            let j = choose|j: int| 0 <= j < string_views(names@).len() && string_views(names@)[j] == name@;
            assert(names@[j]@ == name@);
        }
    }
    false
}

} // verus!
