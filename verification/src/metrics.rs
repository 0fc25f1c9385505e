//! Raw per-task metrics records and the decision whether to report
//! them. The records travel over the metrics channel; sending them is
//! the caller's concern.

use vstd::prelude::*;

use crate::GooseConfiguration;

verus! {

/// The raw record of one task invocation.
#[derive(Debug)]
pub struct GooseRawTask {
    /// Milliseconds between the user's start and this invocation.
    pub elapsed: u64,
    /// Which task set the task belongs to.
    pub taskset_index: usize,
    /// The task's index within its set.
    pub task_index: usize,
    /// The task's display name.
    pub name: String,
    /// The invoking user's index in the weighted allocation.
    pub user_index: usize,
    /// How long the invocation took, in milliseconds.
    pub time: u64,
    /// Whether the task procedure reported success.
    pub success: bool,
}

impl GooseRawTask {
    /// A record for an invocation that just started.
    pub fn new(
        elapsed: u64,
        taskset_index: usize,
        task_index: usize,
        name: &str,
        user_index: usize,
    ) -> (r: GooseRawTask)
        ensures
            r.elapsed == elapsed,
            r.taskset_index == taskset_index,
            r.task_index == task_index,
            r.name@ == name@,
            r.user_index == user_index,
            r.time == 0,
            !r.success,
    {
        GooseRawTask {
            elapsed,
            taskset_index,
            task_index,
            name: name.to_owned(),
            user_index,
            time: 0,
            success: false,
        }
    }

    /// Close the record: how long the invocation took and whether it
    /// succeeded.
    pub fn set_time(&mut self, time: u64, success: bool)
        ensures
            *final (self) == (GooseRawTask { time, success, ..*old(self) }),
    {
        self.time = time;
        self.success = success;
    }
}

/// A message on the metrics channel: one task record or one request
/// record.
#[derive(Debug)]
pub enum GooseMetric {
    /// The record of one task invocation.
    Task(GooseRawTask),
    /// The record of one method / name pair's statistics.
    Request(crate::request::GooseRequest),
}

/// Whether per-task metrics are reported at all: both the global and
/// the per-task metrics switches must be on.
pub fn task_metrics_enabled(config: &GooseConfiguration) -> (r: bool)
    ensures
        r == (!config.no_metrics && !config.no_task_metrics),
{
    !config.no_metrics && !config.no_task_metrics
}

} // verus!
