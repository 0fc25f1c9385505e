//! The load test's data model: tasks, task sets, the engine state, and the
//! per-user client state.

use vstd::prelude::*;

use crate::GooseError;

verus! {

/// Tracks the current run-mode of a client. Transitions are monotonic:
/// INIT, then HATCHING, then RUNNING, then EXITING, never backwards.
#[derive(Clone, Copy, Debug, PartialEq, Eq, Structural)]
#[allow(clippy::upper_case_acronyms)]
pub enum GooseClientMode {
    /// Clients are briefly in the INIT mode when first allocated.
    INIT,
    /// Clients are briefly in the HATCHING mode when setting things up.
    HATCHING,
    /// Clients spend most of their time in the RUNNING mode, executing tasks.
    RUNNING,
    /// Clients are briefly in the EXITING mode when stopping.
    EXITING,
}

/// The position of a mode in the one-way INIT to EXITING order.
pub open spec fn mode_rank(m: GooseClientMode) -> int {
    match m {
        GooseClientMode::INIT => 0,
        GooseClientMode::HATCHING => 1,
        GooseClientMode::RUNNING => 2,
        GooseClientMode::EXITING => 3,
    }
}

/// Commands sent from the parent to client threads.
#[derive(Clone, Copy, Debug, PartialEq, Eq, Structural)]
#[allow(clippy::upper_case_acronyms)]
pub enum GooseClientCommand {
    /// Tell the client thread to push statistics to the parent.
    SYNC,
    /// Tell the client thread to exit after the current task.
    EXIT,
}

/// An individual task within a `GooseTaskSet`.
#[derive(Debug)]
pub struct GooseTask {
    /// Where the task lives in the owning `GooseTaskSet.tasks` vector.
    pub tasks_index: usize,
    /// Display name; empty when the task is unnamed.
    pub name: String,
    /// How often the task runs relative to its bucket; always at least 1.
    pub weight: usize,
    /// Ordering group; 0 means unsequenced.
    pub sequence: usize,
    /// Run only when a client starts.
    pub on_start: bool,
    /// Run only when a client stops.
    pub on_stop: bool,
    /// Handle into the caller's dispatch table for the task's procedure.
    pub function: Option<usize>,
}

impl GooseTask {
    /// A registered task always carries a positive weight.
    pub open spec fn wf(self) -> bool {
        self.weight >= 1
    }

    pub fn new() -> (t: GooseTask)
        ensures
            t.tasks_index == usize::MAX,
            t.name@ == Seq::<char>::empty(),
            t.weight == 1,
            t.sequence == 0,
            !t.on_start,
            !t.on_stop,
            t.function is None,
            t.wf(),
    {
        GooseTask {
            tasks_index: usize::MAX,
            name: String::new(),
            weight: 1,
            sequence: 0,
            on_start: false,
            on_stop: false,
            function: None,
        }
    }

    pub fn named(name: &str) -> (t: GooseTask)
        ensures
            t.tasks_index == usize::MAX,
            t.name@ == name@,
            t.weight == 1,
            t.sequence == 0,
            !t.on_start,
            !t.on_stop,
            t.function is None,
            t.wf(),
    {
        GooseTask {
            tasks_index: usize::MAX,
            name: name.to_owned(),
            weight: 1,
            sequence: 0,
            on_start: false,
            on_stop: false,
            function: None,
        }
    }

    /// Flag the task to run only when a client first starts.
    pub fn set_on_start(self) -> (t: GooseTask)
        ensures
            t == (GooseTask { on_start: true, ..self }),
    {
        GooseTask { on_start: true, ..self }
    }

    /// Flag the task to run only when a client stops.
    pub fn set_on_stop(self) -> (t: GooseTask)
        ensures
            t == (GooseTask { on_stop: true, ..self }),
    {
        GooseTask { on_stop: true, ..self }
    }

    /// Set (or change) the task's display name.
    pub fn set_name(self, name: &str) -> (t: GooseTask)
        ensures
            t.name@ == name@,
            t == (GooseTask { name: t.name, ..self }),
    {
        GooseTask { name: name.to_owned(), ..self }
    }

    /// Set the task's weight. A weight below 1 is invalid and is rejected
    /// at configuration time.
    pub fn set_weight(self, weight: usize) -> (r: Result<GooseTask, GooseError>)
        ensures
            weight >= 1 ==> r == Ok::<GooseTask, GooseError>(GooseTask { weight, ..self }),
            weight < 1 ==> r == Err::<GooseTask, GooseError>(GooseError::ConfigurationError),
    {
        if weight < 1 {
            Err(GooseError::ConfigurationError)
        } else {
            Ok(GooseTask { weight, ..self })
        }
    }

    /// Put the task in an ordering group; tasks with a lower sequence run
    /// first, and 0 leaves the task unsequenced.
    pub fn set_sequence(self, sequence: usize) -> (t: GooseTask)
        ensures
            t == (GooseTask { sequence, ..self }),
    {
        GooseTask { sequence, ..self }
    }

    /// Associate the task with an entry of the caller's dispatch table of
    /// task procedures.
    pub fn set_function(self, function: usize) -> (t: GooseTask)
        ensures
            t == (GooseTask { function: Some(function), ..self }),
    {
        GooseTask { function: Some(function), ..self }
    }
}

/// An individual task set: a named, weighted collection of tasks plus the
/// wait-time bounds and optional default host its users share.
#[derive(Debug)]
pub struct GooseTaskSet {
    /// The name of the task set.
    pub name: String,
    /// Where the task set lives in the `GooseTest.task_sets` vector.
    pub task_sets_index: usize,
    /// How often the task set is assigned to a client; always at least 1.
    pub weight: usize,
    /// Minimum seconds a client sleeps after running a task.
    pub min_wait: usize,
    /// Maximum seconds a client sleeps after running a task.
    pub max_wait: usize,
    /// One copy of each task that clients running this set execute.
    pub tasks: Vec<GooseTask>,
    /// The steady schedule: buckets of task indices ordered by sequence.
    pub weighted_tasks: Vec<Vec<usize>>,
    /// The schedule of on-start tasks.
    pub weighted_on_start_tasks: Vec<Vec<usize>>,
    /// The schedule of on-stop tasks.
    pub weighted_on_stop_tasks: Vec<Vec<usize>>,
    /// An optional default host for the task set.
    pub host: Option<String>,
}

impl GooseTaskSet {
    /// Registered tasks are indexed by their position and well-formed,
    /// and the set's own weight and wait bounds are valid.
    pub open spec fn wf(self) -> bool {
        &&& self.weight >= 1
        &&& self.min_wait <= self.max_wait
        &&& forall|i: int|
            0 <= i < self.tasks@.len() ==> (#[trigger] self.tasks@[i]).wf()
                && self.tasks@[i].tasks_index == i
    }

    pub fn new(name: &str) -> (ts: GooseTaskSet)
        ensures
            ts.name@ == name@,
            ts.task_sets_index == usize::MAX,
            ts.weight == 1,
            ts.min_wait == 0,
            ts.max_wait == 0,
            ts.tasks@ == Seq::<GooseTask>::empty(),
            ts.weighted_tasks@ == Seq::<Vec<usize>>::empty(),
            ts.weighted_on_start_tasks@ == Seq::<Vec<usize>>::empty(),
            ts.weighted_on_stop_tasks@ == Seq::<Vec<usize>>::empty(),
            ts.host is None,
            ts.wf(),
    {
        let ts = GooseTaskSet {
            name: name.to_owned(),
            task_sets_index: usize::MAX,
            weight: 1,
            min_wait: 0,
            max_wait: 0,
            tasks: Vec::new(),
            weighted_tasks: Vec::new(),
            weighted_on_start_tasks: Vec::new(),
            weighted_on_stop_tasks: Vec::new(),
            host: None,
        };
        proof {
            assert(ts.tasks@ =~= Seq::<GooseTask>::empty());
            assert(ts.weighted_tasks@ =~= Seq::<Vec<usize>>::empty());
            assert(ts.weighted_on_start_tasks@ =~= Seq::<Vec<usize>>::empty());
            assert(ts.weighted_on_stop_tasks@ =~= Seq::<Vec<usize>>::empty());
        }
        ts
    }

    /// Register a task with the set; the task is stored at the end of the
    /// `tasks` vector and its stable index is set to that position.
    pub fn register_task(&mut self, task: GooseTask)
        requires
            task.wf(),
            old(self).tasks@.len() < usize::MAX,
        ensures
            final (self).tasks@ == old(self).tasks@.push(
                GooseTask { tasks_index: old(self).tasks@.len() as usize, ..task },
            ),
            *final (self) == (GooseTaskSet { tasks: final (self).tasks, ..*old(self) }),
            old(self).wf() ==> final (self).wf(),
    {
        let idx = self.tasks.len();
        let task = GooseTask { tasks_index: idx, ..task };
        self.tasks.push(task);
    }

    /// Set the task set's weight. A weight below 1 is invalid and is
    /// rejected at configuration time.
    pub fn set_weight(self, weight: usize) -> (r: Result<GooseTaskSet, GooseError>)
        ensures
            weight >= 1 ==> r == Ok::<GooseTaskSet, GooseError>(
                GooseTaskSet { weight, ..self },
            ),
            weight < 1 ==> r == Err::<GooseTaskSet, GooseError>(GooseError::ConfigurationError),
    {
        if weight < 1 {
            Err(GooseError::ConfigurationError)
        } else {
            Ok(GooseTaskSet { weight, ..self })
        }
    }

    /// Set a default host for the task set, used when neither the path nor
    /// the command line provides one. A string that does not parse as a URL
    /// is rejected at configuration time.
    pub fn set_host(self, host: &str) -> (r: Result<GooseTaskSet, GooseError>)
        ensures
            crate::urls::is_parseable_url(host@) ==> {
                &&& r is Ok
                &&& r->Ok_0.host is Some
                &&& r->Ok_0.host->0@ == host@
                &&& r->Ok_0 == (GooseTaskSet { host: r->Ok_0.host, ..self })
            },
            !crate::urls::is_parseable_url(host@) ==> r == Err::<GooseTaskSet, GooseError>(
                GooseError::ConfigurationError,
            ),
    {
        if crate::urls::str_is_parseable_url(host) {
            Ok(GooseTaskSet { host: Some(host.to_owned()), ..self })
        } else {
            Err(GooseError::ConfigurationError)
        }
    }

    /// Set the wait-time bounds: after each task a client sleeps a random
    /// number of seconds drawn from these bounds. `min_wait` above
    /// `max_wait` is invalid and is rejected at configuration time.
    pub fn set_wait_time(self, min_wait: usize, max_wait: usize) -> (r: Result<
        GooseTaskSet,
        GooseError,
    >)
        ensures
            min_wait <= max_wait ==> r == Ok::<GooseTaskSet, GooseError>(
                GooseTaskSet { min_wait, max_wait, ..self },
            ),
            min_wait > max_wait ==> r == Err::<GooseTaskSet, GooseError>(
                GooseError::ConfigurationError,
            ),
    {
        if min_wait > max_wait {
            Err(GooseError::ConfigurationError)
        } else {
            Ok(GooseTaskSet { min_wait, max_wait, ..self })
        }
    }
}

/// A global list of the task sets (and later clients) in the load test.
#[derive(Debug)]
pub struct GooseTest {
    /// One copy of each registered task set.
    pub task_sets: Vec<GooseTaskSet>,
    /// The weighted vector of client states, one per simulated user.
    pub weighted_clients: Vec<crate::client::GooseClient>,
    /// A random launch order over the weighted clients.
    pub weighted_clients_order: Vec<usize>,
    /// An optional default host for the whole load test.
    pub host: Option<String>,
}

impl GooseTest {
    /// Every registered task set is indexed by its position.
    pub open spec fn wf(self) -> bool {
        forall|i: int|
            0 <= i < self.task_sets@.len() ==> (#[trigger] self.task_sets@[i]).wf()
                && self.task_sets@[i].task_sets_index == i
    }

    pub fn new() -> (g: GooseTest)
        ensures
            g.task_sets@ == Seq::<GooseTaskSet>::empty(),
            g.weighted_clients@ == Seq::<crate::client::GooseClient>::empty(),
            g.weighted_clients_order@ == Seq::<usize>::empty(),
            g.host is None,
            g.wf(),
    {
        let g = GooseTest {
            task_sets: Vec::new(),
            weighted_clients: Vec::new(),
            weighted_clients_order: Vec::new(),
            host: None,
        };
        proof {
            assert(g.task_sets@ =~= Seq::<GooseTaskSet>::empty());
            assert(g.weighted_clients@ =~= Seq::<crate::client::GooseClient>::empty());
            assert(g.weighted_clients_order@ =~= Seq::<usize>::empty());
        }
        g
    }

    /// Register a task set; it is stored at the end of the `task_sets`
    /// vector and its stable index is set to that position.
    pub fn register_taskset(&mut self, taskset: GooseTaskSet)
        requires
            taskset.wf(),
            old(self).task_sets@.len() < usize::MAX,
        ensures
            final (self).task_sets@ == old(self).task_sets@.push(
                GooseTaskSet { task_sets_index: old(self).task_sets@.len() as usize, ..taskset },
            ),
            *final (self) == (GooseTest { task_sets: final (self).task_sets, ..*old(self) }),
            old(self).wf() ==> final (self).wf(),
    {
        let idx = self.task_sets.len();
        let taskset = GooseTaskSet { task_sets_index: idx, ..taskset };
        self.task_sets.push(taskset);
    }

    /// Set a default host for the load test, used when neither the path,
    /// the command line nor the task set provides one. A string that does
    /// not parse as a URL is rejected at configuration time.
    pub fn set_host(self, host: &str) -> (r: Result<GooseTest, GooseError>)
        ensures
            crate::urls::is_parseable_url(host@) ==> {
                &&& r is Ok
                &&& r->Ok_0.host is Some
                &&& r->Ok_0.host->0@ == host@
                &&& r->Ok_0 == (GooseTest { host: r->Ok_0.host, ..self })
            },
            !crate::urls::is_parseable_url(host@) ==> r == Err::<GooseTest, GooseError>(
                GooseError::ConfigurationError,
            ),
    {
        if crate::urls::str_is_parseable_url(host) {
            Ok(GooseTest { host: Some(host.to_owned()), ..self })
        } else {
            Err(GooseError::ConfigurationError)
        }
    }
}

} // verus!
