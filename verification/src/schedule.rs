//! The schedule builder: a task set's tasks become three schedules
//! (on-start, steady, on-stop), each an ordered sequence of buckets.
//! Buckets hold tasks of one sequence number in ascending order, the
//! unsequenced tasks last, and inside a bucket each task is replicated
//! `weight / gcd(all task weights of the set)` times, so the smallest
//! weighted task of a set appears once.

use vstd::prelude::*;

use vstd::arithmetic::div_mod::{lemma_div_multiples_vanish, lemma_fundamental_div_mod};

use crate::goose::{GooseTask, GooseTaskSet};

verus! {

/// Which of the three schedules a task belongs to. A task flagged both
/// on-start and on-stop counts as on-start, so the three schedules
/// partition the tasks.
#[derive(Clone, Copy, Debug, PartialEq, Eq, Structural)]
pub enum TaskPhase {
    /// Runs once when a client starts.
    OnStart,
    /// Runs once when a client stops.
    OnStop,
    /// Runs repeatedly while the client is running.
    Steady,
}

/// The schedule a task belongs to, from its flags.
pub open spec fn phase_of(t: GooseTask) -> TaskPhase {
    if t.on_start {
        TaskPhase::OnStart
    } else if t.on_stop {
        TaskPhase::OnStop
    } else {
        TaskPhase::Steady
    }
}

/// The schedule a task belongs to, from its flags.
pub fn task_phase(t: &GooseTask) -> (r: TaskPhase)
    ensures
        r == phase_of(*t),
{
    if t.on_start {
        TaskPhase::OnStart
    } else if t.on_stop {
        TaskPhase::OnStop
    } else {
        TaskPhase::Steady
    }
}

/// The view of a vector of buckets.
pub open spec fn bviews(b: Seq<Vec<usize>>) -> Seq<Seq<usize>> {
    Seq::new(b.len(), |i: int| b[i]@)
}

/// Euclid's greatest common divisor; `spec_gcd(a, 0) == a`.
pub open spec fn spec_gcd(a: nat, b: nat) -> nat
    decreases b,
{
    if b == 0 {
        a
    } else {
        spec_gcd(b, a % b)
    }
}

/// `x` is a positive multiple of `d`.
pub open spec fn divides(d: nat, x: nat) -> bool {
    exists|k: nat| x == #[trigger] (d * k)
}

/// The gcd of two numbers, not both zero, is positive and divides both.
pub proof fn lemma_gcd_divides(a: nat, b: nat)
    requires
        a > 0 || b > 0,
    ensures
        spec_gcd(a, b) > 0,
        divides(spec_gcd(a, b), a),
        divides(spec_gcd(a, b), b),
    decreases b,
{
    let g = spec_gcd(a, b);
    if b == 0 {
        assert(a == g * 1);
        assert(b == g * 0);
    } else {
        lemma_gcd_divides(b, a % b);
        let k1 = choose|k: nat| b == #[trigger] (g * k);
        let k2 = choose|k: nat| a % b == #[trigger] (g * k);
        lemma_fundamental_div_mod(a as int, b as int);
        let q = a as int / b as int;
        assert(q >= 0);
        assert(a == b * q + a % b);
        assert(b * q == g * (k1 * q)) by (nonlinear_arith)
            requires
                b == g * k1,
        ;
        assert(g * (k1 * q) + g * k2 == g * (k1 * q + k2)) by (nonlinear_arith);
        assert(a == g * ((k1 * q + k2) as nat));
    }
}

/// A positive number divided by a divisor of it gives back the exact
/// quotient, which is itself positive.
pub proof fn lemma_exact_quotient(w: nat, g: nat)
    requires
        divides(g, w),
        g > 0,
        w > 0,
    ensures
        w / g >= 1,
        g * (w / g) == w,
{
    let k = choose|k: nat| w == #[trigger] (g * k);
    assert(k > 0) by {
        if k == 0 {
            assert(g * 0 == 0) by (nonlinear_arith);
        }
    }
    lemma_div_multiples_vanish(k as int, g as int);
    assert(w / g == k);
}

/// Euclid's greatest common divisor.
pub fn gcd(a: usize, b: usize) -> (r: usize)
    ensures
        r == spec_gcd(a as nat, b as nat),
    decreases b,
{
    if b == 0 {
        a
    } else {
        gcd(b, a % b)
    }
}

/// The indices below `upto` of tasks in phase `p` with sequence `s`, in
/// registration order.
pub open spec fn members_upto(tasks: Seq<GooseTask>, p: TaskPhase, s: nat, upto: int) -> Seq<usize>
    decreases upto,
{
    if upto <= 0 {
        Seq::<usize>::empty()
    } else {
        let pre = members_upto(tasks, p, s, upto - 1);
        if phase_of(tasks[upto - 1]) == p && tasks[upto - 1].sequence == s {
            pre.push((upto - 1) as usize)
        } else {
            pre
        }
    }
}

/// The indices of tasks in phase `p` with sequence `s`, in registration
/// order.
pub open spec fn members(tasks: Seq<GooseTask>, p: TaskPhase, s: nat) -> Seq<usize> {
    members_upto(tasks, p, s, tasks.len() as int)
}

/// What `members_upto` holds: exactly the matching indices below `upto`,
/// each once, in ascending order.
pub proof fn lemma_members_upto(tasks: Seq<GooseTask>, p: TaskPhase, s: nat, upto: int)
    requires
        upto <= tasks.len() <= usize::MAX,
    ensures
        ({
            let m = members_upto(tasks, p, s, upto);
            &&& forall|k: int|
                0 <= k < m.len() ==> 0 <= #[trigger] m[k] < upto && phase_of(tasks[m[k] as int])
                    == p && tasks[m[k] as int].sequence == s
            &&& forall|k1: int, k2: int| 0 <= k1 < k2 < m.len() ==> m[k1] < m[k2]
            &&& forall|i: int|
                0 <= i < upto && phase_of(tasks[i]) == p && tasks[i].sequence == s
                    ==> m.contains(i as usize)
        }),
    decreases upto,
{
    if upto > 0 {
        lemma_members_upto(tasks, p, s, upto - 1);
        let pre = members_upto(tasks, p, s, upto - 1);
        let m = members_upto(tasks, p, s, upto);
        let matched = phase_of(tasks[upto - 1]) == p && tasks[upto - 1].sequence == s;
        if matched {
            assert(m == pre.push((upto - 1) as usize));
            assert forall|k: int|
                0 <= k < m.len() implies 0 <= #[trigger] m[k] < upto && phase_of(
                tasks[m[k] as int],
            ) == p && tasks[m[k] as int].sequence == s by {
                if k < pre.len() {
                    assert(m[k] == pre[k]);
                } else {
                    assert(m[k] == (upto - 1) as usize);
                }
            }
            assert forall|k1: int, k2: int| 0 <= k1 < k2 < m.len() implies m[k1] < m[k2] by {
                assert(m[k1] == pre[k1]);
                if k2 < pre.len() {
                    assert(m[k2] == pre[k2]);
                } else {
                    assert(m[k2] == (upto - 1) as usize);
                    assert(pre[k1] < upto - 1);
                }
            }
        } else {
            assert(m == pre);
        }
        assert forall|i: int|
            0 <= i < upto && phase_of(tasks[i]) == p && tasks[i].sequence == s implies m.contains(
            i as usize,
        ) by {
            if i < upto - 1 {
                assert(pre.contains(i as usize));
                let k = choose|k: int| 0 <= k < pre.len() && pre[k] == i as usize;
                assert(m[k] == i as usize);
            } else {
                assert(m[m.len() - 1] == i as usize);
            }
        }
    }
}

/// The gcd of the weights of the first `upto` members; 0 for none.
pub open spec fn gcd_fold_upto(tasks: Seq<GooseTask>, m: Seq<usize>, upto: int) -> nat
    decreases upto,
{
    if upto <= 0 {
        0
    } else {
        spec_gcd(tasks[m[upto - 1] as int].weight as nat, gcd_fold_upto(tasks, m, upto - 1))
    }
}

/// All task indices of a set, in order.
pub open spec fn all_indices(tasks: Seq<GooseTask>) -> Seq<usize> {
    Seq::new(tasks.len(), |i: int| i as usize)
}

/// The common normalizer of a task set's schedules: the gcd of the
/// weights of all its tasks, over every phase.
pub open spec fn set_gcd(tasks: Seq<GooseTask>) -> nat {
    gcd_fold_upto(tasks, all_indices(tasks), tasks.len() as int)
}

/// `d` divides `e` and `e` divides `x`, so `d` divides `x`.
pub proof fn lemma_divides_trans(d: nat, e: nat, x: nat)
    requires
        divides(d, e),
        divides(e, x),
    ensures
        divides(d, x),
{
    let k1 = choose|k: nat| e == #[trigger] (d * k);
    let k2 = choose|k: nat| x == #[trigger] (e * k);
    assert(d * k1 * k2 == d * (k1 * k2)) by (nonlinear_arith);
    assert(x == d * ((k1 * k2) as nat));
}

/// The folded gcd is positive and divides every listed weight.
pub proof fn lemma_gcd_fold_divides(tasks: Seq<GooseTask>, m: Seq<usize>, upto: int)
    requires
        0 < upto <= m.len(),
        forall|k: int|
            0 <= k < m.len() ==> #[trigger] m[k] < tasks.len() && tasks[m[k] as int].weight >= 1,
    ensures
        gcd_fold_upto(tasks, m, upto) > 0,
        forall|k: int|
            0 <= k < upto ==> divides(
                gcd_fold_upto(tasks, m, upto),
                tasks[#[trigger] m[k] as int].weight as nat,
            ),
    decreases upto,
{
    let g = gcd_fold_upto(tasks, m, upto);
    let w = tasks[m[upto - 1] as int].weight as nat;
    if upto == 1 {
        lemma_gcd_divides(w, 0);
    } else {
        lemma_gcd_fold_divides(tasks, m, upto - 1);
        let gp = gcd_fold_upto(tasks, m, upto - 1);
        lemma_gcd_divides(w, gp);
        assert forall|k: int| 0 <= k < upto implies divides(
            g,
            tasks[#[trigger] m[k] as int].weight as nat,
        ) by {
            if k < upto - 1 {
                lemma_divides_trans(g, gp, tasks[m[k] as int].weight as nat);
            }
        }
    }
}

/// `n` copies of the index `x`.
pub open spec fn repeat_index(x: usize, n: nat) -> Seq<usize>
    decreases n,
{
    if n == 0 {
        Seq::<usize>::empty()
    } else {
        repeat_index(x, (n - 1) as nat).push(x)
    }
}

/// The weighted expansion of the first `upto` members: member `m[k]` is
/// replicated `weight / g` times, in member order.
pub open spec fn expand_upto(tasks: Seq<GooseTask>, m: Seq<usize>, g: nat, upto: int) -> Seq<usize>
    decreases upto,
{
    if upto <= 0 {
        Seq::<usize>::empty()
    } else {
        expand_upto(tasks, m, g, upto - 1) + repeat_index(
            m[upto - 1],
            (tasks[m[upto - 1] as int].weight as nat) / g,
        )
    }
}

/// One whole bucket: the weighted expansion of its member list, with the
/// gcd of the member weights as the normalizer.
pub open spec fn expand_bucket(tasks: Seq<GooseTask>, m: Seq<usize>) -> Seq<usize> {
    expand_upto(tasks, m, set_gcd(tasks), m.len() as int)
}

/// The least sequence value above `prev` among tasks below `upto` of
/// phase `p`, if any.
pub open spec fn min_seq_above_upto(
    tasks: Seq<GooseTask>,
    p: TaskPhase,
    prev: nat,
    upto: int,
) -> Option<nat>
    decreases upto,
{
    if upto <= 0 {
        None
    } else {
        let rest = min_seq_above_upto(tasks, p, prev, upto - 1);
        let t = tasks[upto - 1];
        if phase_of(t) == p && t.sequence > prev {
            match rest {
                None => Some(t.sequence as nat),
                Some(v) => Some(
                    if (t.sequence as nat) < v {
                        t.sequence as nat
                    } else {
                        v
                    },
                ),
            }
        } else {
            rest
        }
    }
}

/// The least sequence value above `prev` among tasks of phase `p`.
pub open spec fn min_seq_above(tasks: Seq<GooseTask>, p: TaskPhase, prev: nat) -> Option<nat> {
    min_seq_above_upto(tasks, p, prev, tasks.len() as int)
}

/// What `min_seq_above_upto` returns: the least matching value, held by
/// some task; or nothing matches.
pub proof fn lemma_min_seq_above_upto(tasks: Seq<GooseTask>, p: TaskPhase, prev: nat, upto: int)
    requires
        upto <= tasks.len(),
    ensures
        ({
            let r = min_seq_above_upto(tasks, p, prev, upto);
            match r {
                None => forall|i: int|
                    0 <= i < upto ==> !(phase_of(#[trigger] tasks[i]) == p && tasks[i].sequence
                        > prev),
                Some(v) => {
                    &&& prev < v <= usize::MAX
                    &&& exists|i: int|
                        0 <= i < upto && phase_of(#[trigger] tasks[i]) == p && tasks[i].sequence
                            == v
                    &&& forall|i: int|
                        0 <= i < upto && phase_of(#[trigger] tasks[i]) == p && tasks[i].sequence
                            > prev ==> tasks[i].sequence >= v
                },
            }
        }),
    decreases upto,
{
    if upto > 0 {
        lemma_min_seq_above_upto(tasks, p, prev, upto - 1);
    }
}

/// The buckets for all sequence values above `prev`, in ascending order
/// of sequence value.
pub open spec fn sequenced_buckets(tasks: Seq<GooseTask>, p: TaskPhase, prev: nat) -> Seq<
    Seq<usize>,
>
    decreases usize::MAX - prev,
    when prev <= usize::MAX
    via sequenced_buckets_decreases
{
    match min_seq_above(tasks, p, prev) {
        None => Seq::<Seq<usize>>::empty(),
        Some(v) => seq![expand_bucket(tasks, members(tasks, p, v))] + sequenced_buckets(
            tasks,
            p,
            v,
        ),
    }
}

#[via_fn]
proof fn sequenced_buckets_decreases(tasks: Seq<GooseTask>, p: TaskPhase, prev: nat) {
    lemma_min_seq_above_upto(tasks, p, prev, tasks.len() as int);
}

/// A whole schedule: the sequenced buckets in ascending order, then one
/// bucket of all unsequenced tasks, if there are any.
pub open spec fn schedule_spec(tasks: Seq<GooseTask>, p: TaskPhase) -> Seq<Seq<usize>> {
    let seqd = sequenced_buckets(tasks, p, 0);
    let unseq = members(tasks, p, 0);
    if unseq.len() == 0 {
        seqd
    } else {
        seqd + seq![expand_bucket(tasks, unseq)]
    }
}

/// Collect the member indices of one bucket: phase `p`, sequence `s`.
fn collect_members(tasks: &Vec<GooseTask>, p: TaskPhase, s: usize) -> (r: Vec<usize>)
    ensures
        r@ == members(tasks@, p, s as nat),
{
    let n = tasks.len();
    let mut r: Vec<usize> = Vec::new();
    let mut i: usize = 0;
    while i < n
        invariant
            i <= n,
            n == tasks@.len(),
            r@ == members_upto(tasks@, p, s as nat, i as int),
        decreases n - i,
    {
        let ph = task_phase(&tasks[i]);
        if ph == p && tasks[i].sequence == s {
            r.push(i);
        }
        i += 1;
    }
    r
}

/// The least sequence value above `prev` among tasks of phase `p`.
fn min_sequence_above(tasks: &Vec<GooseTask>, p: TaskPhase, prev: usize) -> (r: Option<usize>)
    ensures
        ({
            let m = min_seq_above(tasks@, p, prev as nat);
            match r {
                None => m is None,
                Some(v) => m == Some(v as nat),
            }
        }),
{
    let n = tasks.len();
    let mut best: Option<usize> = None;
    let mut i: usize = 0;
    while i < n
        invariant
            i <= n,
            n == tasks@.len(),
            ({
                let m = min_seq_above_upto(tasks@, p, prev as nat, i as int);
                match best {
                    None => m is None,
                    Some(v) => m == Some(v as nat),
                }
            }),
        decreases n - i,
    {
        let ph = task_phase(&tasks[i]);
        if ph == p && tasks[i].sequence > prev {
            best = match best {
                None => Some(tasks[i].sequence),
                Some(v) => Some(
                    if tasks[i].sequence < v {
                        tasks[i].sequence
                    } else {
                        v
                    },
                ),
            };
        }
        i += 1;
    }
    best
}

/// The weighted expansion of one bucket's member list, with the task
/// set's common gcd as the normalizer.
fn expand_members(tasks: &Vec<GooseTask>, m: &Vec<usize>, g: usize) -> (r: Vec<usize>)
    requires
        forall|k: int|
            0 <= k < m@.len() ==> #[trigger] m@[k] < tasks@.len() && tasks@[m@[k] as int].weight
                >= 1,
        g as nat == set_gcd(tasks@),
        m@.len() > 0 ==> g >= 1,
    ensures
        r@ == expand_bucket(tasks@, m@),
{
    let nm = m.len();
    if nm == 0 {
        let r: Vec<usize> = Vec::new();
        proof {
            assert(r@ =~= expand_bucket(tasks@, m@));
        }
        return r;
    }
    let mut r: Vec<usize> = Vec::new();
    let mut j: usize = 0;
    while j < nm
        invariant
            j <= nm,
            nm == m@.len(),
            forall|k: int|
                0 <= k < m@.len() ==> #[trigger] m@[k] < tasks@.len() && tasks@[m@[k] as int].weight
                    >= 1,
            g as nat == set_gcd(tasks@),
            g > 0,
            r@ == expand_upto(tasks@, m@, g as nat, j as int),
        decreases nm - j,
    {
        let copies = tasks[m[j]].weight / g;
        let ghost before = r@;
        let mut c: usize = 0;
        while c < copies
            invariant
                c <= copies,
                j < nm,
                nm == m@.len(),
                copies == (tasks@[m@[j as int] as int].weight as nat) / (g as nat),
                g > 0,
                m@[j as int] < tasks@.len(),
                r@ == before + repeat_index(m@[j as int], c as nat),
            decreases copies - c,
        {
            r.push(m[j]);
            proof {
                assert(r@ =~= before + repeat_index(m@[j as int], (c + 1) as nat));
            }
            c += 1;
        }
        j += 1;
    }
    r
}

/// Build one schedule: tasks of phase `p`, grouped into buckets by
/// ascending sequence value with the unsequenced tasks last, each bucket
/// weighted-expanded.
pub fn weighted_schedule(tasks: &Vec<GooseTask>, p: TaskPhase) -> (r: Vec<Vec<usize>>)
    requires
        forall|i: int| 0 <= i < tasks@.len() ==> (#[trigger] tasks@[i]).weight >= 1,
    ensures
        bviews(r@) == schedule_spec(tasks@, p),
{
    let mut buckets: Vec<Vec<usize>> = Vec::new();
    let mut prev: usize = 0;
    let n = tasks.len();
    let mut g: usize = 0;
    let mut gi: usize = 0;
    while gi < n
        invariant
            gi <= n,
            n == tasks@.len(),
            g as nat == gcd_fold_upto(tasks@, all_indices(tasks@), gi as int),
        decreases n - gi,
    {
        proof {
            assert(all_indices(tasks@)[gi as int] == gi);
        }
        g = gcd(tasks[gi].weight, g);
        gi += 1;
    }
    let ghost whole = sequenced_buckets(tasks@, p, 0);
    proof {
        assert(bviews(buckets@) =~= Seq::<Seq<usize>>::empty());
    }
    loop
        invariant
            tasks@.len() == n,
            forall|i: int| 0 <= i < tasks@.len() ==> (#[trigger] tasks@[i]).weight >= 1,
            g as nat == set_gcd(tasks@),
            whole == sequenced_buckets(tasks@, p, 0),
            whole =~= bviews(buckets@) + sequenced_buckets(tasks@, p, prev as nat),
        ensures
            bviews(buckets@) == whole,
            g as nat == set_gcd(tasks@),
        decreases usize::MAX - prev,
    {
        match min_sequence_above(tasks, p, prev) {
            None => {
                proof {
                    assert(sequenced_buckets(tasks@, p, prev as nat) =~= Seq::<
                        Seq<usize>,
                    >::empty());
                    assert(bviews(buckets@) =~= bviews(buckets@) + Seq::<Seq<usize>>::empty());
                }
                break ;
            },
            Some(v) => {
                proof {
                    lemma_min_seq_above_upto(tasks@, p, prev as nat, tasks@.len() as int);
                    lemma_members_upto(tasks@, p, v as nat, tasks@.len() as int);
                    let wit = choose|i: int|
                        0 <= i < tasks@.len() && phase_of(#[trigger] tasks@[i]) == p
                            && tasks@[i].sequence == v as nat;
                    assert(members(tasks@, p, v as nat).contains(wit as usize));
                    lemma_gcd_fold_divides(tasks@, all_indices(tasks@), tasks@.len() as int);
                }
                let m = collect_members(tasks, p, v);
                let b = expand_members(tasks, &m, g);
                let ghost bs = buckets@;
                buckets.push(b);
                proof {
                    assert(bviews(buckets@) =~= bviews(bs).push(b@));
                    assert(bviews(bs).push(b@) =~= bviews(bs) + seq![b@]);
                    assert(whole =~= bviews(buckets@) + sequenced_buckets(tasks@, p, v as nat));
                }
                prev = v;
            },
        }
    }
    proof {
        lemma_members_upto(tasks@, p, 0, tasks@.len() as int);
    }
    let m0 = collect_members(tasks, p, 0);
    if m0.len() > 0 {
        proof {
            assert(m0@[0] < tasks@.len());
            lemma_gcd_fold_divides(tasks@, all_indices(tasks@), tasks@.len() as int);
        }
        let b0 = expand_members(tasks, &m0, g);
        let ghost bs = buckets@;
        buckets.push(b0);
        proof {
            assert(bviews(buckets@) =~= bviews(bs).push(b0@));
            assert(bviews(bs).push(b0@) =~= bviews(bs) + seq![b0@]);
            assert(bviews(buckets@) =~= schedule_spec(tasks@, p));
        }
    } else {
        proof {
            assert(bviews(buckets@) =~= schedule_spec(tasks@, p));
        }
    }
    buckets
}

/// How often the index `x` occurs in `s`.
pub open spec fn occ(s: Seq<usize>, x: usize) -> nat
    decreases s.len(),
{
    if s.len() == 0 {
        0
    } else {
        occ(s.drop_last(), x) + (if s.last() == x {
            1nat
        } else {
            0nat
        })
    }
}

/// Occurrences add up over concatenation.
pub proof fn lemma_occ_concat(a: Seq<usize>, b: Seq<usize>, x: usize)
    ensures
        occ(a + b, x) == occ(a, x) + occ(b, x),
    decreases b.len(),
{
    if b.len() == 0 {
        assert(a + b =~= a);
    } else {
        assert((a + b).drop_last() =~= a + b.drop_last());
        assert((a + b).last() == b.last());
        lemma_occ_concat(a, b.drop_last(), x);
    }
}

/// `repeat_index(y, n)` holds `y` exactly `n` times and nothing else.
pub proof fn lemma_occ_repeat(y: usize, n: nat, x: usize)
    ensures
        occ(repeat_index(y, n), x) == if x == y {
            n
        } else {
            0nat
        },
    decreases n,
{
    if n > 0 {
        lemma_occ_repeat(y, (n - 1) as nat, x);
        assert(repeat_index(y, n).drop_last() =~= repeat_index(y, (n - 1) as nat));
        assert(repeat_index(y, n).last() == y);
    }
}

/// An index that never occurs has occurrence count 0.
pub proof fn lemma_occ_zero(s: Seq<usize>, x: usize)
    requires
        forall|k: int| 0 <= k < s.len() ==> s[k] != x,
    ensures
        occ(s, x) == 0,
    decreases s.len(),
{
    if s.len() > 0 {
        lemma_occ_zero(s.drop_last(), x);
    }
}

/// In a sequence of pairwise distinct indices, each occurs exactly once.
pub proof fn lemma_occ_once(s: Seq<usize>, k: int)
    requires
        0 <= k < s.len(),
        forall|k1: int, k2: int| 0 <= k1 < k2 < s.len() ==> s[k1] != s[k2],
    ensures
        occ(s, s[k]) == 1,
    decreases s.len(),
{
    if k == s.len() - 1 {
        assert forall|k0: int| 0 <= k0 < s.drop_last().len() implies s.drop_last()[k0] != s[k] by {
            assert(s.drop_last()[k0] == s[k0]);
        }
        lemma_occ_zero(s.drop_last(), s[k]);
    } else {
        assert forall|k1: int, k2: int|
            0 <= k1 < k2 < s.drop_last().len() implies s.drop_last()[k1] != s.drop_last()[k2] by {
            assert(s.drop_last()[k1] == s[k1]);
            assert(s.drop_last()[k2] == s[k2]);
        }
        assert(s.drop_last()[k] == s[k]);
        lemma_occ_once(s.drop_last(), k);
        assert(s.last() != s[k]);
    }
}

/// One more occurrence multiplies out to one more block of copies.
proof fn lemma_succ_mul(a: nat, b: nat)
    ensures
        (a + 1) * b == a * b + b,
        1nat * b == b,
        0nat * b == 0,
{
    assert((a + 1) * b == a * b + b) by (nonlinear_arith);
    assert(1nat * b == b) by (nonlinear_arith);
    assert(0nat * b == 0) by (nonlinear_arith);
}

/// How often each index occurs in a weighted expansion: its occurrences
/// in the member prefix, times its weight over the normalizer.
pub proof fn lemma_expand_upto_occ(
    tasks: Seq<GooseTask>,
    m: Seq<usize>,
    g: nat,
    upto: int,
    x: usize,
)
    requires
        0 <= upto <= m.len(),
        x < tasks.len(),
        forall|k: int| 0 <= k < m.len() ==> #[trigger] m[k] < tasks.len(),
    ensures
        occ(expand_upto(tasks, m, g, upto), x) == occ(m.take(upto), x) * (
        (tasks[x as int].weight as nat) / g),
    decreases upto,
{
    let c = (tasks[x as int].weight as nat) / g;
    lemma_succ_mul(0, c);
    if upto <= 0 {
        assert(m.take(upto) =~= Seq::<usize>::empty());
        assert(occ(expand_upto(tasks, m, g, upto), x) == 0);
        assert(occ(m.take(upto), x) == 0);
        assert(occ(m.take(upto), x) * c == 0);
    } else {
        lemma_expand_upto_occ(tasks, m, g, upto - 1, x);
        let y = m[upto - 1];
        let ghost ny = (tasks[y as int].weight as nat) / g;
        lemma_occ_concat(expand_upto(tasks, m, g, upto - 1), repeat_index(y, ny), x);
        lemma_occ_repeat(y, ny, x);
        assert(m.take(upto).drop_last() =~= m.take(upto - 1));
        assert(m.take(upto).last() == y);
        let po = occ(m.take(upto - 1), x);
        assert(occ(expand_upto(tasks, m, g, upto), x) == occ(expand_upto(tasks, m, g, upto - 1), x)
            + occ(repeat_index(y, ny), x));
        assert(occ(m.take(upto), x) == po + (if x == y {
            1nat
        } else {
            0nat
        }));
        if y == x {
            lemma_succ_mul(po, c);
            assert(ny == c);
            assert(occ(m.take(upto), x) == po + 1);
            assert(occ(m.take(upto), x) * c == (po + 1) * c);
            assert(occ(expand_upto(tasks, m, g, upto), x) == po * c + c);
        } else {
            assert(occ(expand_upto(tasks, m, g, upto), x) == po * c);
            assert(occ(m.take(upto), x) * c == po * c);
        }
    }
}

/// Every entry of a weighted expansion is one of the bucket's members.
pub proof fn lemma_expand_entries(tasks: Seq<GooseTask>, m: Seq<usize>, g: nat, upto: int)
    requires
        0 <= upto <= m.len(),
    ensures
        forall|k: int|
            0 <= k < expand_upto(tasks, m, g, upto).len() ==> m.contains(
                #[trigger] expand_upto(tasks, m, g, upto)[k],
            ),
    decreases upto,
{
    if upto > 0 {
        lemma_expand_entries(tasks, m, g, upto - 1);
        let pre = expand_upto(tasks, m, g, upto - 1);
        let y = m[upto - 1];
        let ny = (tasks[y as int].weight as nat) / g;
        let e = expand_upto(tasks, m, g, upto);
        lemma_occ_repeat(y, ny, y);
        assert forall|k: int| 0 <= k < e.len() implies m.contains(#[trigger] e[k]) by {
            if k < pre.len() {
                assert(e[k] == pre[k]);
            } else {
                lemma_repeat_entries(y, ny);
                assert(e[k] == repeat_index(y, ny)[k - pre.len()]);
                assert(m[upto - 1] == y);
            }
        }
    }
}

/// Every entry of `repeat_index(y, n)` is `y`.
pub proof fn lemma_repeat_entries(y: usize, n: nat)
    ensures
        forall|k: int| 0 <= k < repeat_index(y, n).len() ==> repeat_index(y, n)[k] == y,
        repeat_index(y, n).len() == n,
    decreases n,
{
    if n > 0 {
        lemma_repeat_entries(y, (n - 1) as nat);
        let r = repeat_index(y, n);
        assert forall|k: int| 0 <= k < r.len() implies r[k] == y by {
            if k < n - 1 {
                assert(r[k] == repeat_index(y, (n - 1) as nat)[k]);
            }
        }
    }
}

/// A bucket's expansion contains each of its members at least once.
pub proof fn lemma_expand_contains_members(tasks: Seq<GooseTask>, m: Seq<usize>)
    requires
        tasks.len() <= usize::MAX,
        forall|k: int| 0 <= k < tasks.len() ==> (#[trigger] tasks[k]).weight >= 1,
        forall|k: int| 0 <= k < m.len() ==> #[trigger] m[k] < tasks.len(),
    ensures
        forall|k: int| 0 <= k < m.len() ==> expand_bucket(tasks, m).contains(#[trigger] m[k]),
        m.len() > 0 ==> expand_bucket(tasks, m).len() > 0,
{
    if m.len() > 0 {
        assert(m[0] < tasks.len());
        lemma_gcd_fold_divides(tasks, all_indices(tasks), tasks.len() as int);
        let g = set_gcd(tasks);
        assert forall|k: int| 0 <= k < m.len() implies expand_bucket(tasks, m).contains(
            #[trigger] m[k],
        ) by {
            assert(all_indices(tasks)[m[k] as int] == m[k]);
            assert(divides(g, tasks[m[k] as int].weight as nat));
            lemma_exact_quotient(tasks[m[k] as int].weight as nat, g);
            lemma_expand_prefix_contains(tasks, m, g, k + 1, m.len() as int);
        }
        let k0 = 0;
        assert(expand_bucket(tasks, m).contains(m[k0]));
        let w = choose|w: int|
            0 <= w < expand_bucket(tasks, m).len() && expand_bucket(tasks, m)[w] == m[k0];
    }
}

/// The member `m[upto - 1]` stands in every longer expansion prefix.
proof fn lemma_expand_prefix_contains(
    tasks: Seq<GooseTask>,
    m: Seq<usize>,
    g: nat,
    upto: int,
    full: int,
)
    requires
        0 < upto <= full <= m.len(),
        forall|k: int|
            0 <= k < m.len() ==> #[trigger] m[k] < tasks.len() && tasks[m[k] as int].weight >= 1,
        (tasks[m[upto - 1] as int].weight as nat) / g >= 1,
    ensures
        expand_upto(tasks, m, g, full).contains(m[upto - 1]),
    decreases full,
{
    let y = m[upto - 1];
    let ny = (tasks[y as int].weight as nat) / g;
    if full == upto {
        let pre = expand_upto(tasks, m, g, upto - 1);
        let e = expand_upto(tasks, m, g, upto);
        lemma_repeat_entries(y, ny);
        assert(e[pre.len() as int] == repeat_index(y, ny)[0]);
    } else {
        lemma_expand_prefix_contains(tasks, m, g, upto, full - 1);
        let pre = expand_upto(tasks, m, g, full - 1);
        let e = expand_upto(tasks, m, g, full);
        let k = choose|k: int| 0 <= k < pre.len() && pre[k] == y;
        assert(e[k] == pre[k]);
    }
}

/// The sequence value a bucket was built for: the sequence of its first
/// member.
pub open spec fn bucket_value(tasks: Seq<GooseTask>, b: Seq<usize>) -> nat {
    tasks[b[0] as int].sequence as nat
}

/// The task index `i` stands somewhere in the schedule.
pub open spec fn schedule_contains(sb: Seq<Seq<usize>>, i: usize) -> bool {
    exists|j: int, k: int| 0 <= j < sb.len() && 0 <= k < sb[j].len() && #[trigger] sb[j][k] == i
}

/// The shape of the sequenced buckets above `prev`: every bucket is
/// non-empty, holds tasks of phase `p` of one sequence value above
/// `prev`, and bucket values strictly increase.
pub proof fn lemma_sequenced_buckets_props(tasks: Seq<GooseTask>, p: TaskPhase, prev: nat)
    requires
        tasks.len() <= usize::MAX,
        prev <= usize::MAX,
        forall|i: int| 0 <= i < tasks.len() ==> (#[trigger] tasks[i]).weight >= 1,
    ensures
        ({
            let sb = sequenced_buckets(tasks, p, prev);
            &&& forall|j: int| 0 <= j < sb.len() ==> (#[trigger] sb[j]).len() > 0
            &&& forall|j: int, k: int|
                0 <= j < sb.len() && 0 <= k < sb[j].len() ==> #[trigger] sb[j][k] < tasks.len()
                    && phase_of(tasks[sb[j][k] as int]) == p && tasks[sb[j][k] as int].sequence
                    as nat == bucket_value(tasks, sb[j])
            &&& forall|j: int| 0 <= j < sb.len() ==> bucket_value(tasks, #[trigger] sb[j]) > prev
            &&& forall|j1: int, j2: int|
                0 <= j1 < j2 < sb.len() ==> bucket_value(tasks, #[trigger] sb[j1]) < bucket_value(
                    tasks,
                    #[trigger] sb[j2],
                )
        }),
    decreases usize::MAX - prev,
{
    let sb = sequenced_buckets(tasks, p, prev);
    lemma_min_seq_above_upto(tasks, p, prev, tasks.len() as int);
    match min_seq_above(tasks, p, prev) {
        None => {},
        Some(v) => {
            lemma_sequenced_buckets_props(tasks, p, v);
            lemma_members_upto(tasks, p, v, tasks.len() as int);
            let m = members(tasks, p, v);
            let b = expand_bucket(tasks, m);
            let rest = sequenced_buckets(tasks, p, v);
            let wit = choose|i: int|
                0 <= i < tasks.len() && phase_of(#[trigger] tasks[i]) == p && tasks[i].sequence
                    == v;
            assert(m.contains(wit as usize));
            assert(m.len() > 0);
            lemma_expand_contains_members(tasks, m);
            lemma_expand_entries(tasks, m, set_gcd(tasks), m.len() as int);
            assert(b.len() > 0);
            assert(m.contains(b[0]));
            assert(bucket_value(tasks, b) == v);
            assert forall|j: int| 0 <= j < sb.len() implies (#[trigger] sb[j]).len() > 0 by {
                if j > 0 {
                    assert(sb[j] == rest[j - 1]);
                }
            }
            assert forall|j: int, k: int|
                0 <= j < sb.len() && 0 <= k < sb[j].len() implies #[trigger] sb[j][k]
                < tasks.len() && phase_of(tasks[sb[j][k] as int]) == p && tasks[sb[j][k] as int].sequence
                as nat == bucket_value(tasks, sb[j]) by {
                if j == 0 {
                    assert(sb[0] == b);
                    assert(m.contains(b[k]));
                } else {
                    assert(sb[j] == rest[j - 1]);
                }
            }
            assert forall|j: int| 0 <= j < sb.len() implies bucket_value(tasks, #[trigger] sb[j])
                > prev by {
                if j == 0 {
                    assert(sb[0] == b);
                } else {
                    assert(sb[j] == rest[j - 1]);
                }
            }
            assert forall|j1: int, j2: int| 0 <= j1 < j2 < sb.len() implies bucket_value(
                tasks,
                #[trigger] sb[j1],
            ) < bucket_value(tasks, #[trigger] sb[j2]) by {
                assert(sb[j2] == rest[j2 - 1]);
                if j1 == 0 {
                    assert(sb[0] == b);
                } else {
                    assert(sb[j1] == rest[j1 - 1]);
                }
            }
        },
    }
}

/// Every sequence value above `prev` that some task of phase `p` holds
/// gets its own bucket among the sequenced buckets.
pub proof fn lemma_sequenced_buckets_complete(tasks: Seq<GooseTask>, p: TaskPhase, prev: nat, s: nat)
    requires
        tasks.len() <= usize::MAX,
        prev <= usize::MAX,
        prev < s,
        exists|i: int|
            0 <= i < tasks.len() && phase_of(#[trigger] tasks[i]) == p && tasks[i].sequence == s,
    ensures
        ({
            let sb = sequenced_buckets(tasks, p, prev);
            exists|j: int|
                0 <= j < sb.len() && #[trigger] sb[j] == expand_bucket(
                    tasks,
                    members(tasks, p, s),
                )
        }),
    decreases usize::MAX - prev,
{
    let sb = sequenced_buckets(tasks, p, prev);
    lemma_min_seq_above_upto(tasks, p, prev, tasks.len() as int);
    let v = min_seq_above(tasks, p, prev)->0;
    let rest = sequenced_buckets(tasks, p, v);
    if v == s {
        assert(sb[0] == expand_bucket(tasks, members(tasks, p, s)));
    } else {
        assert(v < s);
        lemma_sequenced_buckets_complete(tasks, p, v, s);
        let j = choose|j: int|
            0 <= j < rest.len() && #[trigger] rest[j] == expand_bucket(tasks, members(tasks, p, s));
        assert(sb[j + 1] == rest[j]);
    }
}

/// Law: every registered task appears in the schedule of its own phase,
/// and in no other schedule: the three schedules partition the tasks.
pub proof fn lemma_task_in_exactly_one_schedule(tasks: Seq<GooseTask>, i: usize)
    requires
        i < tasks.len() <= usize::MAX,
        forall|k: int| 0 <= k < tasks.len() ==> (#[trigger] tasks[k]).weight >= 1,
    ensures
        schedule_contains(schedule_spec(tasks, phase_of(tasks[i as int])), i),
        forall|q: TaskPhase|
            q != phase_of(tasks[i as int]) ==> !schedule_contains(
                #[trigger] schedule_spec(tasks, q),
                i,
            ),
{
    let p = phase_of(tasks[i as int]);
    let s = tasks[i as int].sequence as nat;
    let seqd = sequenced_buckets(tasks, p, 0);
    let unseq = members(tasks, p, 0);
    let sb = schedule_spec(tasks, p);
    lemma_members_upto(tasks, p, s, tasks.len() as int);
    lemma_members_upto(tasks, p, 0, tasks.len() as int);
    if s == 0 {
        assert(unseq.contains(i));
        let k = choose|k: int| 0 <= k < unseq.len() && unseq[k] == i;
        lemma_expand_contains_members(tasks, unseq);
        let b = expand_bucket(tasks, unseq);
        assert(b.contains(i));
        let w = choose|w: int| 0 <= w < b.len() && b[w] == i;
        assert(sb[sb.len() - 1] == b);
        assert(schedule_contains(sb, i));
    } else {
        assert(exists|w: int|
            0 <= w < tasks.len() && phase_of(#[trigger] tasks[w]) == p && tasks[w].sequence == s)
            by {
            assert(phase_of(tasks[i as int]) == p && tasks[i as int].sequence == s);
        }
        lemma_sequenced_buckets_complete(tasks, p, 0, s);
        let m = members(tasks, p, s);
        let j = choose|j: int|
            0 <= j < seqd.len() && #[trigger] seqd[j] == expand_bucket(tasks, m);
        assert(m.contains(i));
        lemma_expand_contains_members(tasks, m);
        let b = expand_bucket(tasks, m);
        let w = choose|w: int| 0 <= w < b.len() && b[w] == i;
        assert(sb[j] == b);
        assert(schedule_contains(sb, i));
    }
    assert forall|q: TaskPhase| q != p implies !schedule_contains(
        #[trigger] schedule_spec(tasks, q),
        i,
    ) by {
        lemma_schedule_entries_phase(tasks, q);
        if schedule_contains(schedule_spec(tasks, q), i) {
            let sbq = schedule_spec(tasks, q);
            let (j, k) = choose|j: int, k: int|
                0 <= j < sbq.len() && 0 <= k < sbq[j].len() && #[trigger] sbq[j][k] == i;
            assert(phase_of(tasks[i as int]) == q);
        }
    }
}

/// Every entry of a schedule is a valid task index of the schedule's
/// phase.
pub proof fn lemma_schedule_entries_phase(tasks: Seq<GooseTask>, p: TaskPhase)
    requires
        tasks.len() <= usize::MAX,
        forall|k: int| 0 <= k < tasks.len() ==> (#[trigger] tasks[k]).weight >= 1,
    ensures
        ({
            let sb = schedule_spec(tasks, p);
            forall|j: int, k: int|
                0 <= j < sb.len() && 0 <= k < sb[j].len() ==> #[trigger] sb[j][k] < tasks.len()
                    && phase_of(tasks[sb[j][k] as int]) == p
        }),
{
    let sb = schedule_spec(tasks, p);
    let seqd = sequenced_buckets(tasks, p, 0);
    let unseq = members(tasks, p, 0);
    lemma_sequenced_buckets_props(tasks, p, 0);
    lemma_members_upto(tasks, p, 0, tasks.len() as int);
    lemma_expand_entries(tasks, unseq, set_gcd(tasks), unseq.len() as int);
    assert forall|j: int, k: int|
        0 <= j < sb.len() && 0 <= k < sb[j].len() implies #[trigger] sb[j][k] < tasks.len()
        && phase_of(tasks[sb[j][k] as int]) == p by {
        if j < seqd.len() {
            assert(sb[j] == seqd[j]);
        } else {
            assert(sb[j] == expand_bucket(tasks, unseq));
            assert(unseq.contains(sb[j][k]));
        }
    }
}

/// Law: buckets of a schedule are ordered by strictly increasing
/// sequence value, and the unsequenced bucket, if any, is last. Every
/// bucket is non-empty and holds tasks of one sequence value.
pub proof fn lemma_schedule_buckets_ordered(tasks: Seq<GooseTask>, p: TaskPhase)
    requires
        tasks.len() <= usize::MAX,
        forall|k: int| 0 <= k < tasks.len() ==> (#[trigger] tasks[k]).weight >= 1,
    ensures
        ({
            let sb = schedule_spec(tasks, p);
            &&& forall|j: int| 0 <= j < sb.len() ==> (#[trigger] sb[j]).len() > 0
            &&& forall|j: int, k: int|
                0 <= j < sb.len() && 0 <= k < sb[j].len() ==> #[trigger] sb[j][k] < tasks.len()
                    && tasks[sb[j][k] as int].sequence as nat == bucket_value(tasks, sb[j])
            &&& forall|j: int|
                0 <= j < sb.len() && bucket_value(tasks, #[trigger] sb[j]) == 0 ==> j == sb.len()
                    - 1
            &&& forall|j1: int, j2: int|
                0 <= j1 < j2 < sb.len() && bucket_value(tasks, #[trigger] sb[j2]) != 0
                    ==> bucket_value(tasks, #[trigger] sb[j1]) < bucket_value(tasks, sb[j2])
        }),
{
    let sb = schedule_spec(tasks, p);
    let seqd = sequenced_buckets(tasks, p, 0);
    let unseq = members(tasks, p, 0);
    lemma_sequenced_buckets_props(tasks, p, 0);
    lemma_members_upto(tasks, p, 0, tasks.len() as int);
    lemma_expand_contains_members(tasks, unseq);
    lemma_expand_entries(tasks, unseq, set_gcd(tasks), unseq.len() as int);
    let b0 = expand_bucket(tasks, unseq);
    if unseq.len() > 0 {
        assert(unseq.contains(b0[0]));
        assert(bucket_value(tasks, b0) == 0);
    }
    assert forall|j: int| 0 <= j < sb.len() implies (#[trigger] sb[j]).len() > 0 by {
        if j < seqd.len() {
            assert(sb[j] == seqd[j]);
        } else {
            assert(sb[j] == b0);
        }
    }
    assert forall|j: int, k: int|
        0 <= j < sb.len() && 0 <= k < sb[j].len() implies #[trigger] sb[j][k] < tasks.len()
        && tasks[sb[j][k] as int].sequence as nat == bucket_value(tasks, sb[j]) by {
        if j < seqd.len() {
            assert(sb[j] == seqd[j]);
        } else {
            assert(sb[j] == b0);
            assert(unseq.contains(sb[j][k]));
        }
    }
    assert forall|j: int|
        0 <= j < sb.len() && bucket_value(tasks, #[trigger] sb[j]) == 0 implies j == sb.len()
        - 1 by {
        if j < seqd.len() {
            assert(sb[j] == seqd[j]);
            assert(bucket_value(tasks, seqd[j]) > 0);
        }
    }
    assert forall|j1: int, j2: int|
        0 <= j1 < j2 < sb.len() && bucket_value(tasks, #[trigger] sb[j2]) != 0 implies bucket_value(
        tasks,
        #[trigger] sb[j1],
    ) < bucket_value(tasks, sb[j2]) by {
        assert(j2 < seqd.len() || sb[j2] == b0);
        if j2 < seqd.len() {
            assert(sb[j1] == seqd[j1]);
            assert(sb[j2] == seqd[j2]);
        }
    }
}

/// Law: within one bucket, a member of weight `w` appears exactly
/// `w / gcd(all task weights of the set)` times, and nothing else
/// appears at all.
pub proof fn lemma_bucket_weight_counts(tasks: Seq<GooseTask>, p: TaskPhase, s: nat)
    requires
        tasks.len() <= usize::MAX,
        forall|k: int| 0 <= k < tasks.len() ==> (#[trigger] tasks[k]).weight >= 1,
    ensures
        ({
            let m = members(tasks, p, s);
            let b = expand_bucket(tasks, m);
            let g = set_gcd(tasks);
            &&& forall|k: int|
                0 <= k < m.len() ==> occ(b, #[trigger] m[k]) == (
                tasks[m[k] as int].weight as nat) / g
            &&& forall|x: usize| !m.contains(x) ==> occ(b, x) == 0
        }),
{
    let m = members(tasks, p, s);
    let b = expand_bucket(tasks, m);
    let g = set_gcd(tasks);
    lemma_members_upto(tasks, p, s, tasks.len() as int);
    assert forall|k: int| 0 <= k < m.len() implies occ(b, #[trigger] m[k]) == (
    tasks[m[k] as int].weight as nat) / g by {
        lemma_expand_upto_occ(tasks, m, g, m.len() as int, m[k]);
        assert(m.take(m.len() as int) =~= m);
        lemma_occ_once(m, k);
        lemma_succ_mul(0, (tasks[m[k] as int].weight as nat) / g);
    }
    assert forall|x: usize| !m.contains(x) implies occ(b, x) == 0 by {
        lemma_expand_entries(tasks, m, g, m.len() as int);
        if occ(b, x) != 0 {
            lemma_occ_zero(b, x);
        }
    }
}

/// Law: building a schedule is deterministic; the same task list always
/// yields the same schedule, so repeated builder runs agree.
pub proof fn lemma_schedule_builder_repeatable(a: Seq<GooseTask>, b: Seq<GooseTask>, p: TaskPhase)
    requires
        a == b,
    ensures
        schedule_spec(a, p) == schedule_spec(b, p),
{
}

impl GooseTaskSet {
    /// Build and store the task set's three schedules from its registered
    /// tasks. Building is deterministic: the same tasks always give the
    /// same schedules.
    pub fn weight_tasks(&mut self)
        requires
            old(self).wf(),
        ensures
            bviews(final (self).weighted_tasks@) == schedule_spec(
                old(self).tasks@,
                TaskPhase::Steady,
            ),
            bviews(final (self).weighted_on_start_tasks@) == schedule_spec(
                old(self).tasks@,
                TaskPhase::OnStart,
            ),
            bviews(final (self).weighted_on_stop_tasks@) == schedule_spec(
                old(self).tasks@,
                TaskPhase::OnStop,
            ),
            *final (self) == (GooseTaskSet {
                weighted_tasks: final (self).weighted_tasks,
                weighted_on_start_tasks: final (self).weighted_on_start_tasks,
                weighted_on_stop_tasks: final (self).weighted_on_stop_tasks,
                ..*old(self)
            }),
            final (self).wf(),
    {
        self.weighted_tasks = weighted_schedule(&self.tasks, TaskPhase::Steady);
        self.weighted_on_start_tasks = weighted_schedule(&self.tasks, TaskPhase::OnStart);
        self.weighted_on_stop_tasks = weighted_schedule(&self.tasks, TaskPhase::OnStop);
    }
}

} // verus!
