//! The per-user driver, as a state machine: each step takes the drained
//! control commands and yields the next phase plus one action for the
//! caller (invoke a task, sleep one quantum, or stop). The caller runs
//! the loop; every decision is made here.

use vstd::prelude::*;

use crate::client::GooseClient;
use crate::goose::{mode_rank, GooseClientCommand, GooseClientMode, GooseTaskSet};

verus! {

/// Where the driver stands in a user's life cycle.
#[derive(Clone, Copy, Debug, PartialEq, Eq, Structural)]
pub enum DriverPhase {
    /// Walking the on-start schedule at (bucket, pos).
    OnStart { bucket: usize, pos: usize },
    /// About to run the next steady task.
    Steady,
    /// Sleeping between steady tasks, in one-second quanta.
    Sleeping { slept: usize, wait: usize },
    /// Walking the on-stop schedule at (bucket, pos).
    OnStop { bucket: usize, pos: usize },
    /// The driver is done.
    Finished,
}

/// What the caller must do after a step.
#[derive(Clone, Copy, Debug, PartialEq, Eq, Structural)]
pub enum DriverAction {
    /// Run the on-start task with this index.
    InvokeOnStart(usize),
    /// Run the steady task with this index.
    InvokeSteady(usize),
    /// Run the on-stop task with this index.
    InvokeOnStop(usize),
    /// Sleep one second, then drain commands and step again.
    Sleep,
    /// Nothing to do outside; step again.
    Continue,
    /// The user is finished.
    Done,
}

/// Phases only move forward: on-start, steady, on-stop, finished.
pub open spec fn phase_rank(ph: DriverPhase) -> int {
    match ph {
        DriverPhase::OnStart { .. } => 0,
        DriverPhase::Steady => 1,
        DriverPhase::Sleeping { .. } => 1,
        DriverPhase::OnStop { .. } => 2,
        DriverPhase::Finished => 3,
    }
}

/// Whether the drained commands ask the user to exit.
pub open spec fn has_exit(cmds: Seq<GooseClientCommand>) -> bool {
    exists|i: int| 0 <= i < cmds.len() && cmds[i] == GooseClientCommand::EXIT
}

/// A well-formed schedule: no empty bucket, every entry a valid task
/// index.
pub open spec fn schedule_ok(sb: Seq<Vec<usize>>, ntasks: nat) -> bool {
    &&& forall|j: int| 0 <= j < sb.len() ==> (#[trigger] sb[j])@.len() >= 1
    &&& forall|j: int, k: int|
        0 <= j < sb.len() && 0 <= k < sb[j]@.len() ==> (#[trigger] sb[j]@[k]) < ntasks
}

/// The bucket lengths of a schedule.
pub open spec fn lens_of(sb: Seq<Vec<usize>>) -> Seq<nat> {
    Seq::new(sb.len(), |j: int| sb[j]@.len())
}

/// The two schedules have the same bucket count and lengths, and each
/// bucket holds the same task indices (possibly reordered).
pub open spec fn sched_preserved(a: Seq<Vec<usize>>, b: Seq<Vec<usize>>) -> bool {
    &&& b.len() == a.len()
    &&& forall|j: int| 0 <= j < a.len() ==> (#[trigger] b[j])@.len() == a[j]@.len()
    &&& forall|j: int| 0 <= j < a.len() ==> (#[trigger] b[j])@.to_multiset() == a[j]@.to_multiset()
}

/// Normalize a cursor: a position past the end of its bucket moves to
/// the start of the next bucket, wrapping to bucket 0 at the end.
pub open spec fn cursor_norm(lens: Seq<nat>, c: (int, int)) -> (int, int) {
    if c.1 >= lens[c.0] {
        if c.0 + 1 < lens.len() {
            (c.0 + 1, 0)
        } else {
            (0int, 0int)
        }
    } else {
        c
    }
}

/// One steady iteration of the cursor: normalize, read, advance.
pub open spec fn cursor_step(lens: Seq<nat>, c: (int, int)) -> (int, int) {
    let n = cursor_norm(lens, c);
    (n.0, n.1 + 1)
}

/// The cursor after `k` steady iterations.
pub open spec fn cursor_steps(lens: Seq<nat>, c: (int, int), k: nat) -> (int, int)
    decreases k,
{
    if k == 0 {
        c
    } else {
        cursor_steps(lens, cursor_step(lens, c), (k - 1) as nat)
    }
}

/// A cursor that the next step can use: inside a bucket, or just past
/// its end.
pub open spec fn cursor_wf(lens: Seq<nat>, c: (int, int)) -> bool {
    &&& lens.len() >= 1 ==> 0 <= c.0 < lens.len() && 0 <= c.1 <= lens[c.0]
    &&& lens.len() == 0 ==> c == (0int, 0int)
}

/// Every bucket of the steady schedule is non-empty.
pub open spec fn lens_pos(lens: Seq<nat>) -> bool {
    forall|j: int| 0 <= j < lens.len() ==> lens[j] >= 1
}

/// The total number of entries in buckets `b` and later.
pub open spec fn sum_from(lens: Seq<nat>, b: int) -> nat
    decreases lens.len() - b,
{
    if b < 0 || b >= lens.len() {
        0
    } else {
        lens[b] + sum_from(lens, b + 1)
    }
}

/// The total number of entries of a schedule.
pub open spec fn total_len(lens: Seq<nat>) -> nat {
    sum_from(lens, 0)
}

/// Whether the driver's phase agrees with the client's schedules.
pub open spec fn phase_wf(c: GooseClient, ph: DriverPhase) -> bool {
    match ph {
        DriverPhase::OnStart { bucket, pos } => {
            &&& bucket <= c.weighted_on_start_tasks@.len()
            &&& bucket < c.weighted_on_start_tasks@.len() ==> pos
                < c.weighted_on_start_tasks@[bucket as int]@.len()
        },
        DriverPhase::OnStop { bucket, pos } => {
            &&& bucket <= c.weighted_on_stop_tasks@.len()
            &&& bucket < c.weighted_on_stop_tasks@.len() ==> pos
                < c.weighted_on_stop_tasks@[bucket as int]@.len()
        },
        _ => true,
    }
}

/// An exact copy of a bucket.
pub(crate) fn clone_bucket(v: &Vec<usize>) -> (r: Vec<usize>)
    ensures
        r@ == v@,
{
    let mut r: Vec<usize> = Vec::new();
    let n = v.len();
    let mut i: usize = 0;
    while i < n
        invariant
            i <= n,
            n == v@.len(),
            r@ == v@.subrange(0, i as int),
        decreases n - i,
    {
        r.push(v[i]);
        proof {
            assert(r@ =~= v@.subrange(0, i + 1));
        }
        i += 1;
    }
    proof {
        assert(v@.subrange(0, n as int) =~= v@);
    }
    r
}

/// An unbiased Fisher-Yates shuffle of one bucket. The result holds the
/// same task indices, each the same number of times, in some order.
pub fn shuffled(bucket: Vec<usize>) -> (r: Vec<usize>)
    ensures
        r@.len() == bucket@.len(),
        r@.to_multiset() == bucket@.to_multiset(),
        forall|k: int| 0 <= k < r@.len() ==> bucket@.contains(#[trigger] r@[k]),
{
    broadcast use vstd::seq_lib::group_to_multiset_ensures;

    let mut v = bucket;
    let ghost orig = v@;
    let n = v.len();
    if n > 1 {
        let mut i: usize = n - 1;
        while i >= 1
            invariant
                i <= n - 1,
                n == v@.len(),
                v@.to_multiset() == orig.to_multiset(),
            decreases i,
        {
            let j = crate::rng::random_below(i + 1);
            let ghost before = v@;
            let vi = v[i];
            let vj = v[j];
            v[i] = vj;
            v[j] = vi;
            proof {
                assert(v@ == before.update(i as int, before[j as int]).update(
                    j as int,
                    before[i as int],
                ));
                lemma_swap_multiset(before, i as int, j as int);
            }
            i -= 1;
        }
    }
    proof {
        assert forall|k: int| 0 <= k < v@.len() implies orig.contains(#[trigger] v@[k]) by {
            assert(v@.to_multiset().count(v@[k]) > 0);
        }
    }
    v
}

/// Swapping two positions of a sequence keeps its multiset of values.
proof fn lemma_swap_multiset(s: Seq<usize>, i: int, j: int)
    requires
        0 <= i < s.len(),
        0 <= j < s.len(),
    ensures
        s.update(i, s[j]).update(j, s[i]).to_multiset() == s.to_multiset(),
{
    broadcast use vstd::seq_lib::group_to_multiset_ensures;
    broadcast use vstd::seq_lib::to_multiset_update;

    if i == j {
        assert(s.update(i, s[j]).update(j, s[i]) =~= s);
    } else {
        let s1 = s.update(i, s[j]);
        let s2 = s1.update(j, s[i]);
        assert(s1[j] == s[j]);
        assert(s2.to_multiset() =~= s.to_multiset());
    }
}

/// The wait drawn before the next steady task: none when `max_wait` is
/// 0, a uniform draw from the half-open range when it is above
/// `min_wait`, and `min_wait` itself when the range is empty.
pub fn compute_wait(min_wait: usize, max_wait: usize) -> (r: usize)
    ensures
        max_wait == 0 ==> r == 0,
        min_wait < max_wait ==> min_wait <= r < max_wait,
        max_wait > 0 && min_wait >= max_wait ==> r == min_wait,
{
    if max_wait == 0 {
        0
    } else if min_wait < max_wait {
        crate::rng::random_in_range(min_wait, max_wait)
    } else {
        min_wait
    }
}

/// Apply the drained control commands: EXIT moves the client to
/// EXITING, every other command is ignored.
fn apply_commands(client: &mut GooseClient, commands: &Vec<GooseClientCommand>)
    ensures
        final (client).mode == if has_exit(commands@) {
            GooseClientMode::EXITING
        } else {
            old(client).mode
        },
        *final (client) == (GooseClient { mode: final (client).mode, ..*old(client) }),
{
    let n = commands.len();
    let mut i: usize = 0;
    let mut exit = false;
    while i < n
        invariant
            i <= n,
            n == commands@.len(),
            exit == has_exit(commands@.take(i as int)),
        decreases n - i,
    {
        if commands[i] == GooseClientCommand::EXIT {
            exit = true;
        }
        proof {
            assert(commands@.take(i + 1).drop_last() =~= commands@.take(i as int));
            assert(commands@.take(i + 1).last() == commands@[i as int]);
            if has_exit(commands@.take(i as int)) {
                let w = choose|w: int|
                    0 <= w < i && #[trigger] commands@.take(i as int)[w]
                        == GooseClientCommand::EXIT;
                assert(commands@.take(i + 1)[w] == GooseClientCommand::EXIT);
            }
            if commands@[i as int] == GooseClientCommand::EXIT {
                assert(commands@.take(i + 1)[i as int] == GooseClientCommand::EXIT);
            }
            if has_exit(commands@.take(i + 1))
                && commands@[i as int] != GooseClientCommand::EXIT {
                let w = choose|w: int|
                    0 <= w < i + 1 && #[trigger] commands@.take(i + 1)[w]
                        == GooseClientCommand::EXIT;
                assert(commands@.take(i as int)[w] == GooseClientCommand::EXIT);
            }
        }
        i += 1;
    }
    proof {
        assert(commands@.take(n as int) =~= commands@);
    }
    if exit {
        client.set_mode(GooseClientMode::EXITING);
    }
}

/// One more pass multiplies out to one more block of steps.
proof fn lemma_mul_step(a: nat, b: nat)
    ensures
        (a + 1) * b == a * b + b,
{
    assert((a + 1) * b == a * b + b) by (nonlinear_arith);
}

/// Stepping is additive: `k1 + k2` steps are `k1` steps, then `k2`.
proof fn lemma_cursor_steps_compose(lens: Seq<nat>, c: (int, int), k1: nat, k2: nat)
    ensures
        cursor_steps(lens, c, k1 + k2) == cursor_steps(lens, cursor_steps(lens, c, k1), k2),
    decreases k1,
{
    if k1 > 0 {
        lemma_cursor_steps_compose(lens, cursor_step(lens, c), (k1 - 1) as nat, k2);
    }
}

/// Inside one bucket the cursor just advances.
proof fn lemma_cursor_run(lens: Seq<nat>, b: int, p: int, k: nat)
    requires
        0 <= b < lens.len(),
        0 <= p,
        p + k <= lens[b],
    ensures
        cursor_steps(lens, (b, p), k) == (b, p + k),
    decreases k,
{
    if k > 0 {
        assert(cursor_norm(lens, (b, p)) == (b, p));
        lemma_cursor_run(lens, b, p + 1, (k - 1) as nat);
    }
}

/// From the start of bucket `b`, walking all remaining entries ends
/// just past the last bucket.
proof fn lemma_pass_end(lens: Seq<nat>, b: int)
    requires
        lens.len() >= 1,
        lens_pos(lens),
        0 <= b < lens.len(),
    ensures
        cursor_steps(lens, (b, 0int), sum_from(lens, b)) == (
            lens.len() - 1,
            lens[lens.len() - 1] as int,
        ),
    decreases lens.len() - b,
{
    lemma_cursor_steps_compose(lens, (b, 0int), lens[b], sum_from(lens, b + 1));
    lemma_cursor_run(lens, b, 0, lens[b]);
    if b == lens.len() - 1 {
        assert(sum_from(lens, b + 1) == 0);
    } else {
        assert(cursor_step(lens, (b, lens[b] as int)) == (b + 1, 1int));
        assert(cursor_step(lens, (b + 1, 0int)) == (b + 1, 1int));
        assert(sum_from(lens, b + 1) >= lens[b + 1] >= 1);
        let m = sum_from(lens, b + 1);
        assert(cursor_steps(lens, (b, lens[b] as int), m) == cursor_steps(
            lens,
            (b + 1, 0int),
            m,
        )) by {
            assert(cursor_steps(lens, (b, lens[b] as int), m) == cursor_steps(
                lens,
                cursor_step(lens, (b, lens[b] as int)),
                (m - 1) as nat,
            ));
            assert(cursor_steps(lens, (b + 1, 0int), m) == cursor_steps(
                lens,
                cursor_step(lens, (b + 1, 0int)),
                (m - 1) as nat,
            ));
        }
        lemma_pass_end(lens, b + 1);
    }
}

/// A whole pass from the start of bucket `b` drops out of the step
/// count: the cursor continues as if it had started fresh.
proof fn lemma_pass_skip(lens: Seq<nat>, b: int, m: nat)
    requires
        lens.len() >= 1,
        lens_pos(lens),
        0 <= b < lens.len(),
        m >= 1,
    ensures
        cursor_steps(lens, (b, 0int), sum_from(lens, b) + m) == cursor_steps(lens, (0int, 0int), m),
    decreases lens.len() - b,
{
    lemma_cursor_steps_compose(lens, (b, 0int), lens[b], sum_from(lens, b + 1) + m);
    lemma_cursor_run(lens, b, 0, lens[b]);
    let rest = sum_from(lens, b + 1) + m;
    if b == lens.len() - 1 {
        assert(sum_from(lens, b + 1) == 0);
        assert(cursor_step(lens, (b, lens[b] as int)) == (0int, 1int));
        assert(cursor_step(lens, (0int, 0int)) == (0int, 1int));
        assert(cursor_steps(lens, (b, lens[b] as int), m) == cursor_steps(
            lens,
            cursor_step(lens, (b, lens[b] as int)),
            (m - 1) as nat,
        ));
        assert(cursor_steps(lens, (0int, 0int), m) == cursor_steps(
            lens,
            cursor_step(lens, (0int, 0int)),
            (m - 1) as nat,
        ));
    } else {
        assert(cursor_step(lens, (b, lens[b] as int)) == (b + 1, 1int));
        assert(cursor_step(lens, (b + 1, 0int)) == (b + 1, 1int));
        assert(rest >= 1);
        assert(cursor_steps(lens, (b, lens[b] as int), rest) == cursor_steps(
            lens,
            (b + 1, 0),
            rest,
        )) by {
            assert(cursor_steps(lens, (b, lens[b] as int), rest) == cursor_steps(
                lens,
                cursor_step(lens, (b, lens[b] as int)),
                (rest - 1) as nat,
            ));
            assert(cursor_steps(lens, (b + 1, 0), rest) == cursor_steps(
                lens,
                cursor_step(lens, (b + 1, 0int)),
                (rest - 1) as nat,
            ));
        }
        lemma_pass_skip(lens, b + 1, m);
    }
}

/// Law: with every bucket non-empty, walking the steady schedule for
/// any whole number of passes brings the cursor back to the start: the
/// next task read is again bucket 0, position 0.
pub proof fn lemma_steady_cursor_period(lens: Seq<nat>, k: nat)
    requires
        lens.len() >= 1,
        lens_pos(lens),
    ensures
        cursor_norm(lens, cursor_steps(lens, (0int, 0int), k * total_len(lens))) == (0int, 0int),
    decreases k,
{
    let t = total_len(lens);
    assert(t >= lens[0] >= 1);
    if k == 0 {
        assert(0nat * t == 0) by (nonlinear_arith);
        assert(cursor_steps(lens, (0int, 0int), 0) == (0int, 0int));
    } else if k == 1 {
        assert(1nat * t == t) by (nonlinear_arith);
        lemma_pass_end(lens, 0);
        assert(cursor_norm(lens, (lens.len() - 1, lens[lens.len() - 1] as int)) == (
            0int,
            0int,
        ));
    } else {
        lemma_mul_step((k - 1) as nat, t);
        assert(k * t == t + (k - 1) * t);
        let m = ((k - 1) * t) as nat;
        assert(m >= t) by {
            assert((k - 1) * t >= 1 * t) by (nonlinear_arith)
                requires
                    k >= 2,
                    t >= 1,
            ;
            assert(1nat * t == t) by (nonlinear_arith);
        }
        lemma_pass_skip(lens, 0, m);
        lemma_steady_cursor_period(lens, (k - 1) as nat);
    }
}

impl GooseClient {
    /// The steady cursor as a pair of mathematical integers.
    pub open spec fn cursor(self) -> (int, int) {
        (self.weighted_bucket as int, self.weighted_bucket_position as int)
    }
}

/// One step of the per-user driver. Applies the drained commands (EXIT
/// moves the client to EXITING, everything else is ignored), then takes
/// one decision: the next on-start, steady or on-stop task to invoke,
/// one sleep quantum, or nothing. The caller performs the action, drains
/// its command channel, and calls the next step.
///
/// After EXIT no steady task is ever invoked and no sleep is taken, but
/// the on-stop schedule still runs; phases only move forward, and the
/// client's mode only advances.
pub fn driver_step(
    task_set: &GooseTaskSet,
    client: &mut GooseClient,
    phase: DriverPhase,
    commands: &Vec<GooseClientCommand>,
) -> (r: (DriverPhase, DriverAction))
    requires
        schedule_ok(old(client).weighted_on_start_tasks@, task_set.tasks@.len()),
        schedule_ok(old(client).weighted_tasks@, task_set.tasks@.len()),
        schedule_ok(old(client).weighted_on_stop_tasks@, task_set.tasks@.len()),
        cursor_wf(lens_of(old(client).weighted_tasks@), old(client).cursor()),
        phase_wf(*old(client), phase),
    ensures
        *final (client) == (GooseClient {
            mode: final (client).mode,
            weighted_on_start_tasks: final (client).weighted_on_start_tasks,
            weighted_tasks: final (client).weighted_tasks,
            weighted_on_stop_tasks: final (client).weighted_on_stop_tasks,
            weighted_bucket: final (client).weighted_bucket,
            weighted_bucket_position: final (client).weighted_bucket_position,
            request_name: final (client).request_name,
            ..*old(client)
        }),
        sched_preserved(
            old(client).weighted_on_start_tasks@,
            final (client).weighted_on_start_tasks@,
        ),
        sched_preserved(old(client).weighted_tasks@, final (client).weighted_tasks@),
        sched_preserved(
            old(client).weighted_on_stop_tasks@,
            final (client).weighted_on_stop_tasks@,
        ),
        schedule_ok(final (client).weighted_on_start_tasks@, task_set.tasks@.len()),
        schedule_ok(final (client).weighted_tasks@, task_set.tasks@.len()),
        schedule_ok(final (client).weighted_on_stop_tasks@, task_set.tasks@.len()),
        cursor_wf(lens_of(final (client).weighted_tasks@), final (client).cursor()),
        phase_wf(*final (client), r.0),
        // modes only advance; EXIT takes effect at once
        mode_rank(final (client).mode) >= mode_rank(old(client).mode),
        has_exit(commands@) ==> final (client).mode == GooseClientMode::EXITING,
        // law: once EXITING, no steady task is invoked and no sleep is
        // taken; only on-stop work remains
        final (client).mode == GooseClientMode::EXITING ==> !(r.1 is InvokeSteady) && !(
        r.1 is Sleep),
        // phases never move backwards
        phase_rank(r.0) >= phase_rank(phase),
        // every invoked index is a valid task of the set
        r.1 matches DriverAction::InvokeOnStart(t) ==> t < task_set.tasks@.len(),
        r.1 matches DriverAction::InvokeSteady(t) ==> t < task_set.tasks@.len(),
        r.1 matches DriverAction::InvokeOnStop(t) ==> t < task_set.tasks@.len(),
        // the steady iteration follows the cursor automaton exactly
        (phase == DriverPhase::Steady && old(client).mode != GooseClientMode::EXITING
            && !has_exit(commands@) && old(client).weighted_tasks@.len() > 0) ==> ({
            let lens = lens_of(old(client).weighted_tasks@);
            let nc = cursor_norm(lens, old(client).cursor());
            &&& final (client).cursor() == cursor_step(lens, old(client).cursor())
            &&& r.1 == DriverAction::InvokeSteady(
                final (client).weighted_tasks@[nc.0]@[nc.1],
            )
            &&& (r.0 matches DriverPhase::Sleeping { slept, wait } && slept == 0)
            &&& (old(client).max_wait == 0 ==> r.0 == (DriverPhase::Sleeping {
                slept: 0,
                wait: 0,
            }))
            &&& final (client).request_name@ == task_set.tasks@[final (
            client).weighted_tasks@[nc.0]@[nc.1] as int].name@
        }),
        // on-start and on-stop steps invoke a task of the current bucket
        phase matches DriverPhase::OnStart { bucket, pos } ==> ((bucket as int) < old(
            client,
        ).weighted_on_start_tasks@.len() ==> {
            &&& (r.1 matches DriverAction::InvokeOnStart(t)
                && old(client).weighted_on_start_tasks@[bucket as int]@.contains(t))
            &&& (pos > 0 ==> r.1 == DriverAction::InvokeOnStart(
                old(client).weighted_on_start_tasks@[bucket as int]@[pos as int],
            ))
        }),
        phase matches DriverPhase::OnStop { bucket, pos } ==> ((bucket as int) < old(
            client,
        ).weighted_on_stop_tasks@.len() ==> {
            &&& (r.1 matches DriverAction::InvokeOnStop(t)
                && old(client).weighted_on_stop_tasks@[bucket as int]@.contains(t))
            &&& (pos > 0 ==> r.1 == DriverAction::InvokeOnStop(
                old(client).weighted_on_stop_tasks@[bucket as int]@[pos as int],
            ))
        }),
        // when the on-start walk is done the driver goes steady, or
        // straight to on-stop when exiting or with nothing to run
        phase matches DriverPhase::OnStart { bucket, pos } ==> ((bucket as int) >= old(
            client,
        ).weighted_on_start_tasks@.len() ==> {
            &&& r.1 == DriverAction::Continue
            &&& (old(client).weighted_tasks@.len() > 0 && old(client).mode
                != GooseClientMode::EXITING && !has_exit(commands@)) ==> r.0
                == DriverPhase::Steady && final (client).mode == GooseClientMode::RUNNING
            &&& (old(client).weighted_tasks@.len() == 0 || old(client).mode
                == GooseClientMode::EXITING || has_exit(commands@)) ==> r.0
                == (DriverPhase::OnStop { bucket: 0, pos: 0 })
        }),
        // sleeping counts quanta and wakes up on time or on EXIT
        phase matches DriverPhase::Sleeping { slept, wait } ==> ({
            &&& (old(client).mode == GooseClientMode::EXITING || has_exit(commands@)) ==> r.0
                == (DriverPhase::OnStop { bucket: 0, pos: 0 }) && r.1 == DriverAction::Continue
            &&& (old(client).mode != GooseClientMode::EXITING && !has_exit(commands@) && slept
                >= wait) ==> r.0 == DriverPhase::Steady && r.1 == DriverAction::Continue
            &&& (old(client).mode != GooseClientMode::EXITING && !has_exit(commands@) && slept
                < wait) ==> r.0 == (DriverPhase::Sleeping { slept: (slept + 1) as usize, wait })
                && r.1 == DriverAction::Sleep
        }),
        // the driver finishes exactly at the end of the on-stop walk
        phase matches DriverPhase::OnStop { bucket, pos } ==> ((bucket as int) >= old(
            client,
        ).weighted_on_stop_tasks@.len() ==> r.0 == DriverPhase::Finished && r.1
            == DriverAction::Done && final (client).mode == GooseClientMode::EXITING),
        phase == DriverPhase::Finished ==> r.0 == DriverPhase::Finished && r.1
            == DriverAction::Done,
{
    apply_commands(client, commands);
    match phase {
        DriverPhase::OnStart { bucket, pos } => {
            let n = client.weighted_on_start_tasks.len();
            if bucket >= n {
                if client.weighted_tasks.len() == 0 {
                    client.set_mode(GooseClientMode::EXITING);
                    (DriverPhase::OnStop { bucket: 0, pos: 0 }, DriverAction::Continue)
                } else if client.mode == GooseClientMode::EXITING {
                    (DriverPhase::OnStop { bucket: 0, pos: 0 }, DriverAction::Continue)
                } else {
                    client.set_mode(GooseClientMode::RUNNING);
                    (DriverPhase::Steady, DriverAction::Continue)
                }
            } else {
                if pos == 0 {
                    let fresh = shuffled(clone_bucket(&client.weighted_on_start_tasks[bucket]));
                    let ghost before = client.weighted_on_start_tasks@;
                    client.weighted_on_start_tasks[bucket] = fresh;
                    proof {
                        assert(client.weighted_on_start_tasks@ == before.update(
                            bucket as int,
                            fresh,
                        ));
                    }
                }
                let t = client.weighted_on_start_tasks[bucket][pos];
                set_request_name(task_set, client, t);
                let len = client.weighted_on_start_tasks[bucket].len();
                let next = if pos + 1 < len {
                    DriverPhase::OnStart { bucket, pos: pos + 1 }
                } else {
                    DriverPhase::OnStart { bucket: bucket + 1, pos: 0 }
                };
                (next, DriverAction::InvokeOnStart(t))
            }
        },
        DriverPhase::Steady => {
            if client.mode == GooseClientMode::EXITING {
                (DriverPhase::OnStop { bucket: 0, pos: 0 }, DriverAction::Continue)
            } else if client.weighted_tasks.len() == 0 {
                client.set_mode(GooseClientMode::EXITING);
                (DriverPhase::OnStop { bucket: 0, pos: 0 }, DriverAction::Continue)
            } else {
                let nb = client.weighted_tasks.len();
                let mut b = client.weighted_bucket;
                let mut p = client.weighted_bucket_position;
                if p >= client.weighted_tasks[b].len() {
                    p = 0;
                    b = b + 1;
                    if b >= nb {
                        b = 0;
                    }
                    let fresh = shuffled(clone_bucket(&client.weighted_tasks[b]));
                    let ghost before = client.weighted_tasks@;
                    client.weighted_tasks[b] = fresh;
                    proof {
                        assert(client.weighted_tasks@ == before.update(b as int, fresh));
                    }
                    client.weighted_bucket = b;
                    client.weighted_bucket_position = 0;
                }
                let t = client.weighted_tasks[b][p];
                set_request_name(task_set, client, t);
                client.weighted_bucket_position = p + 1;
                let wait = compute_wait(client.min_wait, client.max_wait);
                (DriverPhase::Sleeping { slept: 0, wait }, DriverAction::InvokeSteady(t))
            }
        },
        DriverPhase::Sleeping { slept, wait } => {
            if client.mode == GooseClientMode::EXITING {
                (DriverPhase::OnStop { bucket: 0, pos: 0 }, DriverAction::Continue)
            } else if slept >= wait {
                (DriverPhase::Steady, DriverAction::Continue)
            } else {
                (DriverPhase::Sleeping { slept: slept + 1, wait }, DriverAction::Sleep)
            }
        },
        DriverPhase::OnStop { bucket, pos } => {
            let n = client.weighted_on_stop_tasks.len();
            if bucket >= n {
                client.set_mode(GooseClientMode::EXITING);
                (DriverPhase::Finished, DriverAction::Done)
            } else {
                if pos == 0 {
                    let fresh = shuffled(clone_bucket(&client.weighted_on_stop_tasks[bucket]));
                    let ghost before = client.weighted_on_stop_tasks@;
                    client.weighted_on_stop_tasks[bucket] = fresh;
                    proof {
                        assert(client.weighted_on_stop_tasks@ == before.update(
                            bucket as int,
                            fresh,
                        ));
                    }
                }
                let t = client.weighted_on_stop_tasks[bucket][pos];
                set_request_name(task_set, client, t);
                let len = client.weighted_on_stop_tasks[bucket].len();
                let next = if pos + 1 < len {
                    DriverPhase::OnStop { bucket, pos: pos + 1 }
                } else {
                    DriverPhase::OnStop { bucket: bucket + 1, pos: 0 }
                };
                (next, DriverAction::InvokeOnStop(t))
            }
        },
        DriverPhase::Finished => (DriverPhase::Finished, DriverAction::Done),
    }
}

/// Record the task's name as the override under which its requests are
/// tracked; an empty task name leaves the override unset.
fn set_request_name(task_set: &GooseTaskSet, client: &mut GooseClient, t: usize)
    requires
        t < task_set.tasks@.len(),
    ensures
        final (client).request_name@ == task_set.tasks@[t as int].name@,
        *final (client) == (GooseClient { request_name: final (client).request_name, ..*old(
            client,
        ) }),
{
    client.request_name = task_set.tasks[t].name.clone();
}

} // verus!
