//! The user allocator: distributes `n` simulated users over the
//! registered task sets in proportion to their weights, by largest
//! remainder, so that exactly `n` users exist and no set is off by more
//! than one user from its exact share. Also draws the random launch
//! order.

use vstd::prelude::*;

use vstd::arithmetic::div_mod::lemma_fundamental_div_mod;

use crate::client::GooseClient;
use crate::goose::{GooseClientMode, GooseTaskSet, GooseTest};
use crate::GooseConfiguration;

verus! {

/// The weights of the registered task sets.
pub open spec fn weights_of(sets: Seq<GooseTaskSet>) -> Seq<nat> {
    Seq::new(sets.len(), |i: int| sets[i].weight as nat)
}

/// The sum of the first `upto` weights.
pub open spec fn sum_weights(ws: Seq<nat>, upto: int) -> nat
    decreases upto,
{
    if upto <= 0 {
        0
    } else {
        sum_weights(ws, upto - 1) + ws[upto - 1]
    }
}

/// The whole share of set `i`: `floor(n * w_i / W)` users.
pub open spec fn base_at(ws: Seq<nat>, n: nat, w_total: nat, i: int) -> nat {
    (n * ws[i]) / w_total
}

/// The remainder of set `i`'s share, deciding who gets a leftover user.
pub open spec fn rem_at(ws: Seq<nat>, n: nat, w_total: nat, i: int) -> nat {
    (n * ws[i]) % w_total
}

/// The sum of the first `upto` whole shares.
pub open spec fn sum_bases(ws: Seq<nat>, n: nat, w_total: nat, upto: int) -> nat
    decreases upto,
{
    if upto <= 0 {
        0
    } else {
        sum_bases(ws, n, w_total, upto - 1) + base_at(ws, n, w_total, upto - 1)
    }
}

/// The sum of the first `upto` remainders.
pub open spec fn sum_rems(ws: Seq<nat>, n: nat, w_total: nat, upto: int) -> nat
    decreases upto,
{
    if upto <= 0 {
        0
    } else {
        sum_rems(ws, n, w_total, upto - 1) + rem_at(ws, n, w_total, upto - 1)
    }
}

/// How many of the first `upto` flags are set.
pub open spec fn count_true(bs: Seq<bool>, upto: int) -> nat
    decreases upto,
{
    if upto <= 0 {
        0
    } else {
        count_true(bs, upto - 1) + (if bs[upto - 1] {
            1nat
        } else {
            0nat
        })
    }
}

/// How many users of the allocation belong to task set `i`.
pub open spec fn count_set(users: Seq<GooseClient>, i: int) -> nat
    decreases users.len(),
{
    if users.len() == 0 {
        0
    } else {
        count_set(users.drop_last(), i) + (if users.last().task_sets_index == i {
            1nat
        } else {
            0nat
        })
    }
}

/// The whole shares and remainders add back up to the exact shares.
proof fn lemma_split_sums(ws: Seq<nat>, n: nat, w_total: nat, upto: int)
    requires
        w_total > 0,
        0 <= upto <= ws.len(),
    ensures
        w_total * sum_bases(ws, n, w_total, upto) + sum_rems(ws, n, w_total, upto) == n
            * sum_weights(ws, upto),
        sum_rems(ws, n, w_total, upto) <= upto * (w_total - 1),
    decreases upto,
{
    if upto <= 0 {
        assert(n * sum_weights(ws, upto) == 0) by (nonlinear_arith)
            requires
                sum_weights(ws, upto) == 0,
        ;
        assert(w_total * sum_bases(ws, n, w_total, upto) == 0) by (nonlinear_arith)
            requires
                sum_bases(ws, n, w_total, upto) == 0,
        ;
        assert(sum_rems(ws, n, w_total, upto) == 0);
    } else {
        lemma_split_sums(ws, n, w_total, upto - 1);
        let w = ws[upto - 1];
        let b = base_at(ws, n, w_total, upto - 1);
        let r = rem_at(ws, n, w_total, upto - 1);
        lemma_fundamental_div_mod((n * w) as int, w_total as int);
        assert(n * w == w_total * b + r);
        assert(r < w_total);
        assert(r <= w_total - 1);
        let sb = sum_bases(ws, n, w_total, upto - 1);
        let sr = sum_rems(ws, n, w_total, upto - 1);
        let sw = sum_weights(ws, upto - 1);
        assert(w_total * (sb + b) == w_total * sb + w_total * b) by (nonlinear_arith);
        assert(n * (sw + w) == n * sw + n * w) by (nonlinear_arith);
        assert((upto - 1) * (w_total - 1) + (w_total - 1) == upto * (w_total - 1))
            by (nonlinear_arith);
        assert(sum_bases(ws, n, w_total, upto) == sb + b);
        assert(sum_rems(ws, n, w_total, upto) == sr + r);
        assert(sum_weights(ws, upto) == sw + w);
        assert(w_total * (sb + b) + (sr + r) == (w_total * sb + sr) + (w_total * b + r));
        assert(w_total * sb + sr == n * sw);
        assert(w_total * b + r == n * w);
    }
}

/// A set's final count is within one whole user of its exact share.
proof fn lemma_count_bound(nw: nat, w_total: nat, b: nat, r: nat, e: nat)
    requires
        w_total >= 1,
        nw == w_total * b + r,
        r < w_total,
        e <= 1,
    ensures
        nw < w_total * (b + e) + w_total,
        w_total * (b + e) <= nw + w_total,
{
    assert(w_total * (b + e) == w_total * b + w_total * e) by (nonlinear_arith);
    assert(w_total * e <= w_total) by (nonlinear_arith)
        requires
            e <= 1 && w_total >= 1,
    ;
}

/// Appending one user moves exactly its own set's count.
proof fn lemma_count_set_push(users: Seq<GooseClient>, u: GooseClient, i: int)
    ensures
        count_set(users.push(u), i) == count_set(users, i) + (if u.task_sets_index == i {
            1nat
        } else {
            0nat
        }),
{
    assert(users.push(u).drop_last() =~= users);
    assert(users.push(u).last() == u);
}

/// Flipping one unset flag raises the count of set flags by one.
proof fn lemma_count_true_update(bs: Seq<bool>, i: int, upto: int)
    requires
        0 <= i < bs.len(),
        !bs[i],
        upto <= bs.len(),
    ensures
        count_true(bs.update(i, true), upto) == count_true(bs, upto) + (if i < upto {
            1nat
        } else {
            0nat
        }),
    decreases upto,
{
    if upto > 0 {
        lemma_count_true_update(bs, i, upto - 1);
    }
}

/// Fewer set flags than flags at all means some flag is unset.
proof fn lemma_count_true_all(bs: Seq<bool>, upto: int)
    requires
        0 <= upto <= bs.len(),
        forall|j: int| 0 <= j < upto ==> bs[j],
    ensures
        count_true(bs, upto) == upto,
    decreases upto,
{
    if upto > 0 {
        lemma_count_true_all(bs, upto - 1);
    }
}

/// A set flag among the first `upto` entries is counted at most once
/// each, so all unset flags give count 0.
proof fn lemma_count_true_none(bs: Seq<bool>, upto: int)
    requires
        upto <= bs.len(),
        forall|j: int| 0 <= j < upto ==> !bs[j],
    ensures
        count_true(bs, upto) == 0,
    decreases upto,
{
    if upto > 0 {
        lemma_count_true_none(bs, upto - 1);
    }
}

/// Partial weight sums only grow.
proof fn lemma_sum_weights_mono(ws: Seq<nat>, a: int, b: int)
    requires
        0 <= a <= b,
    ensures
        sum_weights(ws, a) <= sum_weights(ws, b),
    decreases b,
{
    if a < b {
        lemma_sum_weights_mono(ws, a, b - 1);
    }
}

/// Each weight is at most the total.
proof fn lemma_weight_le_sum(ws: Seq<nat>, i: int, k: int)
    requires
        0 <= i < k,
    ensures
        ws[i] <= sum_weights(ws, k),
{
    lemma_sum_weights_mono(ws, i + 1, k);
}

/// Partial share-plus-leftover sums only grow.
proof fn lemma_partial_le(ws: Seq<nat>, n: nat, w_total: nat, bs: Seq<bool>, a: int, b: int)
    requires
        0 <= a <= b,
    ensures
        sum_bases(ws, n, w_total, a) + count_true(bs, a) <= sum_bases(ws, n, w_total, b)
            + count_true(bs, b),
    decreases b,
{
    if a < b {
        lemma_partial_le(ws, n, w_total, bs, a, b - 1);
    }
}

/// Everything a freshly allocated user guarantees: it belongs to a
/// registered task set and carries that set's wait bounds, host and
/// schedules, the shared configuration, its own stable index, and an
/// empty recorder, in mode HATCHING with the cursor at the start.
pub open spec fn user_ok(
    u: GooseClient,
    sets: Seq<GooseTaskSet>,
    cfg: GooseConfiguration,
    default_host: Option<String>,
    idx: int,
) -> bool {
    &&& 0 <= (u.task_sets_index as int) < sets.len()
    &&& ({
        let ts = sets[u.task_sets_index as int];
        &&& u.weighted_clients_index == idx
        &&& u.mode == GooseClientMode::HATCHING
        &&& u.min_wait == ts.min_wait
        &&& u.max_wait == ts.max_wait
        &&& crate::client::opt_str_view(u.task_set_host) == crate::client::opt_str_view(ts.host)
        &&& crate::client::opt_str_view(u.default_host) == crate::client::opt_str_view(
            default_host,
        )
        &&& u.config.host@ == cfg.host@
        &&& u.config.print_stats == cfg.print_stats
        &&& u.config.status_codes == cfg.status_codes
        &&& u.config.no_metrics == cfg.no_metrics
        &&& u.config.no_task_metrics == cfg.no_task_metrics
        &&& crate::schedule::bviews(u.weighted_on_start_tasks@) == crate::schedule::bviews(
            ts.weighted_on_start_tasks@,
        )
        &&& crate::schedule::bviews(u.weighted_tasks@) == crate::schedule::bviews(
            ts.weighted_tasks@,
        )
        &&& crate::schedule::bviews(u.weighted_on_stop_tasks@) == crate::schedule::bviews(
            ts.weighted_on_stop_tasks@,
        )
        &&& u.requests@.len() == 0
        &&& u.requests_wf()
        &&& u.cursor() == (0int, 0int)
        &&& u.request_name@ == Seq::<char>::empty()
    })
}

/// An exact copy of an optional host string.
fn clone_opt_host(h: &Option<String>) -> (r: Option<String>)
    ensures
        crate::client::opt_str_view(r) == crate::client::opt_str_view(*h),
{
    match h {
        Some(s) => Some(s.clone()),
        None => None,
    }
}

/// An exact copy of a schedule.
fn clone_schedule(v: &Vec<Vec<usize>>) -> (r: Vec<Vec<usize>>)
    ensures
        r@.len() == v@.len(),
        forall|j: int| 0 <= j < v@.len() ==> (#[trigger] r@[j])@ == v@[j]@,
{
    let mut r: Vec<Vec<usize>> = Vec::new();
    let n = v.len();
    let mut i: usize = 0;
    while i < n
        invariant
            i <= n,
            n == v@.len(),
            r@.len() == i,
            forall|j: int| 0 <= j < i ==> (#[trigger] r@[j])@ == v@[j]@,
        decreases n - i,
    {
        r.push(crate::driver::clone_bucket(&v[i]));
        i += 1;
    }
    r
}

/// Allocate `n` users over the task sets, each set receiving its
/// weight's share of users by largest remainder: exactly `n` users come
/// back, and no set's count is more than one user away from its exact
/// proportional share.
pub fn allocate_users(
    task_sets: &Vec<GooseTaskSet>,
    n: usize,
    default_host: &Option<String>,
    config: &GooseConfiguration,
) -> (r: Vec<GooseClient>)
    requires
        task_sets@.len() >= 1,
        forall|i: int| 0 <= i < task_sets@.len() ==> (#[trigger] task_sets@[i]).weight >= 1,
        sum_weights(weights_of(task_sets@), task_sets@.len() as int) <= usize::MAX,
        n * sum_weights(weights_of(task_sets@), task_sets@.len() as int) <= usize::MAX,
    ensures
        r@.len() == n,
        forall|u: int|
            0 <= u < r@.len() ==> user_ok(#[trigger] r@[u], task_sets@, *config, *default_host, u),
        ({
            let ws = weights_of(task_sets@);
            let wt = sum_weights(ws, task_sets@.len() as int);
            forall|i: int|
                0 <= i < task_sets@.len() ==> n * ws[i] < wt * (#[trigger] count_set(r@, i)) + wt
                    && wt * count_set(r@, i) <= n * ws[i] + wt
        }),
{
    let k = task_sets.len();
    let ghost ws = weights_of(task_sets@);
    // total weight
    let mut w_total: usize = 0;
    let mut i: usize = 0;
    while i < k
        invariant
            i <= k,
            k == task_sets@.len(),
            ws == weights_of(task_sets@),
            sum_weights(ws, k as int) <= usize::MAX,
            w_total == sum_weights(ws, i as int),
        decreases k - i,
    {
        proof {
            lemma_sum_weights_mono(ws, i + 1, k as int);
        }
        w_total = w_total + task_sets[i].weight;
        i += 1;
    }
    proof {
        lemma_sum_weights_mono(ws, 1, k as int);
        assert(task_sets@[0].weight >= 1);
        assert(ws[0] == task_sets@[0].weight as nat);
        assert(sum_weights(ws, 1) == sum_weights(ws, 0) + ws[0]);
        assert(w_total >= 1);
    }
    // whole shares and remainders
    let mut base: Vec<usize> = Vec::new();
    let mut rem: Vec<usize> = Vec::new();
    i = 0;
    while i < k
        invariant
            i <= k,
            k == task_sets@.len(),
            ws == weights_of(task_sets@),
            w_total == sum_weights(ws, k as int),
            w_total >= 1,
            n * sum_weights(ws, k as int) <= usize::MAX,
            base@.len() == i,
            rem@.len() == i,
            forall|j: int|
                0 <= j < i ==> base@[j] == base_at(ws, n as nat, w_total as nat, j) && rem@[j]
                    == rem_at(ws, n as nat, w_total as nat, j),
        decreases k - i,
    {
        proof {
            lemma_weight_le_sum(ws, i as int, k as int);
            assert((n as nat) * ws[i as int] <= (n as nat) * sum_weights(ws, k as int))
                by (nonlinear_arith)
                requires
                    ws[i as int] <= sum_weights(ws, k as int),
            ;
        }
        let nw = n * task_sets[i].weight;
        base.push(nw / w_total);
        rem.push(nw % w_total);
        i += 1;
    }
    // the sum of the whole shares
    let mut sb: usize = 0;
    i = 0;
    while i < k
        invariant
            i <= k,
            k == task_sets@.len(),
            ws == weights_of(task_sets@),
            w_total == sum_weights(ws, k as int),
            w_total >= 1,
            n * sum_weights(ws, k as int) <= usize::MAX,
            base@.len() == k,
            forall|j: int|
                0 <= j < k ==> base@[j] == base_at(ws, n as nat, w_total as nat, j),
            sb == sum_bases(ws, n as nat, w_total as nat, i as int),
            sb <= n,
        decreases k - i,
    {
        proof {
            lemma_split_sums(ws, n as nat, w_total as nat, i + 1);
            lemma_sum_weights_mono(ws, i + 1, k as int);
            let sb1 = sum_bases(ws, n as nat, w_total as nat, i + 1);
            assert((w_total as nat) * sb1 <= (n as nat) * (w_total as nat)) by (nonlinear_arith)
                requires
                    (w_total as nat) * sb1 <= (n as nat) * sum_weights(ws, i + 1),
                    sum_weights(ws, i + 1) <= (w_total as nat),
            ;
            assert(sb1 <= n as nat) by (nonlinear_arith)
                requires
                    (w_total as nat) * sb1 <= (n as nat) * (w_total as nat),
                    w_total >= 1,
            ;
        }
        sb = sb + base[i];
        i += 1;
    }
    // how many leftover users remain, and that every round can find a set
    proof {
        lemma_split_sums(ws, n as nat, w_total as nat, k as int);
        let sbk = sum_bases(ws, n as nat, w_total as nat, k as int);
        let srk = sum_rems(ws, n as nat, w_total as nat, k as int);
        if n >= k {
            assert(((n as nat) - (k as nat)) * (w_total as nat) < (w_total as nat) * sbk)
                by (nonlinear_arith)
                requires
                    (w_total as nat) * sbk + srk == (n as nat) * (w_total as nat),
                    srk <= (k as nat) * ((w_total as nat) - 1),
                    k >= 1,
                    w_total >= 1,
                    n >= k,
            ;
            assert((n as nat) - (k as nat) < sbk) by (nonlinear_arith)
                requires
                    ((n as nat) - (k as nat)) * (w_total as nat) < (w_total as nat) * sbk,
                    w_total >= 1,
            ;
        }
    }
    let rcount = n - sb;
    assert(rcount < k);
    // choose which sets receive a leftover user: largest remainder first
    let mut extras: Vec<bool> = Vec::new();
    i = 0;
    while i < k
        invariant
            i <= k,
            extras@.len() == i,
            forall|j: int| 0 <= j < i ==> !extras@[j],
        decreases k - i,
    {
        extras.push(false);
        i += 1;
    }
    proof {
        lemma_count_true_none(extras@, k as int);
    }
    let mut round: usize = 0;
    while round < rcount
        invariant
            round <= rcount,
            rcount < k,
            k == task_sets@.len(),
            extras@.len() == k,
            rem@.len() == k,
            count_true(extras@, k as int) == round,
        decreases rcount - round,
    {
        let mut best: usize = k;
        let mut idx: usize = 0;
        while idx < k
            invariant
                idx <= k,
                k == extras@.len(),
                k == rem@.len(),
                best == k || (best < k && !extras@[best as int]),
                best == k ==> forall|j: int| 0 <= j < idx ==> extras@[j],
            decreases k - idx,
        {
            if !extras[idx] && (best == k || rem[idx] > rem[best]) {
                best = idx;
            }
            idx += 1;
        }
        proof {
            if best == k {
                lemma_count_true_all(extras@, k as int);
            }
        }
        let ghost before = extras@;
        extras[best] = true;
        proof {
            assert(extras@ == before.update(best as int, true));
            lemma_count_true_update(before, best as int, k as int);
        }
        round += 1;
    }
    // build the users, set by set
    let mut users: Vec<GooseClient> = Vec::new();
    i = 0;
    while i < k
        invariant
            i <= k,
            k == task_sets@.len(),
            ws == weights_of(task_sets@),
            w_total == sum_weights(ws, k as int),
            w_total >= 1,
            forall|j: int| 0 <= j < k ==> (#[trigger] task_sets@[j]).weight >= 1,
            base@.len() == k,
            extras@.len() == k,
            forall|j: int|
                0 <= j < k ==> base@[j] == base_at(ws, n as nat, w_total as nat, j),
            sum_bases(ws, n as nat, w_total as nat, k as int) + count_true(extras@, k as int)
                == n,
            users@.len() == sum_bases(ws, n as nat, w_total as nat, i as int) + count_true(
                extras@,
                i as int,
            ),
            forall|j: int|
                0 <= j < i ==> count_set(users@, j) == base_at(ws, n as nat, w_total as nat, j)
                    + (if extras@[j] {
                    1nat
                } else {
                    0nat
                }),
            forall|j: int| i <= j < k ==> count_set(users@, j) == 0,
            forall|u: int|
                0 <= u < users@.len() ==> user_ok(
                    #[trigger] users@[u],
                    task_sets@,
                    *config,
                    *default_host,
                    u,
                ),
        decreases k - i,
    {
        let ghost entry_len = users@.len();
        let ghost entry_users = users@;
        proof {
            lemma_partial_le(ws, n as nat, w_total as nat, extras@, i + 1, k as int);
            assert(sum_bases(ws, n as nat, w_total as nat, i + 1) == sum_bases(
                ws,
                n as nat,
                w_total as nat,
                i as int,
            ) + base_at(ws, n as nat, w_total as nat, i as int));
            assert(count_true(extras@, i + 1) == count_true(extras@, i as int) + (if extras@[
                i as int
            ] {
                1nat
            } else {
                0nat
            }));
            assert(forall|j: int|
                0 <= j < i ==> count_set(entry_users, j) == base_at(ws, n as nat, w_total as nat, j)
                    + (if extras@[j] {
                    1nat
                } else {
                    0nat
                }));
            assert(forall|j: int| i <= j < k ==> count_set(entry_users, j) == 0);
        }
        let extra: usize = if extras[i] {
            1
        } else {
            0
        };
        let count = base[i] + extra;
        let mut j: usize = 0;
        while j < count
            invariant
                j <= count,
                i < k,
                k == task_sets@.len(),
                users@.len() == entry_len + j,
                entry_len + count <= n,
                count_set(users@, i as int) == j,
                forall|q: int|
                    0 <= q < k && q != i ==> count_set(users@, q) == count_set(entry_users, q),
                forall|u: int|
                    0 <= u < users@.len() ==> user_ok(
                        #[trigger] users@[u],
                        task_sets@,
                        *config,
                        *default_host,
                        u,
                    ),
            decreases count - j,
        {
            let ts = &task_sets[i];
            let mut c = GooseClient::new(
                i,
                clone_opt_host(default_host),
                clone_opt_host(&ts.host),
                ts.min_wait,
                ts.max_wait,
                config,
            );
            c.weighted_clients_index = users.len();
            c.set_mode(GooseClientMode::HATCHING);
            c.weighted_on_start_tasks = clone_schedule(&ts.weighted_on_start_tasks);
            c.weighted_tasks = clone_schedule(&ts.weighted_tasks);
            c.weighted_on_stop_tasks = clone_schedule(&ts.weighted_on_stop_tasks);
            let ghost before_users = users@;
            users.push(c);
            proof {
                assert forall|q: int| 0 <= q < k implies count_set(users@, q) == count_set(
                    before_users,
                    q,
                ) + (if q == i {
                    1nat
                } else {
                    0nat
                }) by {
                    lemma_count_set_push(before_users, c, q);
                }
                assert(crate::schedule::bviews(c.weighted_on_start_tasks@)
                    =~= crate::schedule::bviews(task_sets@[i as int].weighted_on_start_tasks@));
                assert(crate::schedule::bviews(c.weighted_tasks@) =~= crate::schedule::bviews(
                    task_sets@[i as int].weighted_tasks@,
                ));
                assert(crate::schedule::bviews(c.weighted_on_stop_tasks@)
                    =~= crate::schedule::bviews(task_sets@[i as int].weighted_on_stop_tasks@));
                assert(user_ok(c, task_sets@, *config, *default_host, entry_len + j));
            }
            j += 1;
        }
        proof {
            assert forall|j2: int|
                0 <= j2 < i + 1 implies count_set(users@, j2) == base_at(
                ws,
                n as nat,
                w_total as nat,
                j2,
            ) + (if extras@[j2] {
                1nat
            } else {
                0nat
            }) by {
                if j2 < i {
                    assert(count_set(users@, j2) == count_set(entry_users, j2));
                }
            }
            assert forall|j2: int| i + 1 <= j2 < k implies count_set(users@, j2) == 0 by {
                assert(count_set(users@, j2) == count_set(entry_users, j2));
            }
        }
        i += 1;
    }
    proof {
        let sbk = sum_bases(ws, n as nat, w_total as nat, k as int);
        assert(users@.len() == n);
        assert forall|q: int| 0 <= q < k implies (n as nat) * ws[q] < (w_total as nat) * (
        #[trigger] count_set(users@, q)) + (w_total as nat) && (w_total as nat) * count_set(
            users@,
            q,
        ) <= (n as nat) * ws[q] + (w_total as nat) by {
            lemma_fundamental_div_mod(((n as nat) * ws[q]) as int, w_total as int);
            lemma_count_bound(
                (n as nat) * ws[q],
                w_total as nat,
                base_at(ws, n as nat, w_total as nat, q),
                rem_at(ws, n as nat, w_total as nat, q),
                if extras@[q] {
                    1nat
                } else {
                    0nat
                },
            );
        }
    }
    users
}

/// A uniformly random launch order: a permutation of the user indices
/// `0` to `n - 1`.
pub fn launch_order(n: usize) -> (r: Vec<usize>)
    ensures
        r@.len() == n,
        r@.to_multiset() == Seq::new(n as nat, |i: int| i as usize).to_multiset(),
        forall|k: int| 0 <= k < r@.len() ==> #[trigger] r@[k] < n,
{
    let mut v: Vec<usize> = Vec::new();
    let mut i: usize = 0;
    while i < n
        invariant
            i <= n,
            v@ =~= Seq::new(i as nat, |q: int| q as usize),
        decreases n - i,
    {
        v.push(i);
        proof {
            assert(v@ =~= Seq::new((i + 1) as nat, |q: int| q as usize));
        }
        i += 1;
    }
    let r = crate::driver::shuffled(v);
    proof {
        assert forall|k: int| 0 <= k < r@.len() implies #[trigger] r@[k] < n by {
            let s = Seq::new(n as nat, |q: int| q as usize);
            assert(s.contains(r@[k]));
            let w = choose|w: int| 0 <= w < s.len() && s[w] == r@[k];
        }
    }
    r
}

impl GooseTest {
    /// Allocate the weighted clients for this load test and draw the
    /// random order in which they will be launched.
    pub fn allocate_weighted_clients(&mut self, clients: usize, config: &GooseConfiguration)
        requires
            old(self).task_sets@.len() >= 1,
            forall|i: int|
                0 <= i < old(self).task_sets@.len() ==> (#[trigger] old(
                    self,
                ).task_sets@[i]).weight >= 1,
            sum_weights(weights_of(old(self).task_sets@), old(self).task_sets@.len() as int)
                <= usize::MAX,
            clients * sum_weights(
                weights_of(old(self).task_sets@),
                old(self).task_sets@.len() as int,
            ) <= usize::MAX,
        ensures
            *final (self) == (GooseTest {
                weighted_clients: final (self).weighted_clients,
                weighted_clients_order: final (self).weighted_clients_order,
                ..*old(self)
            }),
            final (self).weighted_clients@.len() == clients,
            forall|u: int|
                0 <= u < clients ==> user_ok(
                    #[trigger] final (self).weighted_clients@[u],
                    old(self).task_sets@,
                    *config,
                    old(self).host,
                    u,
                ),
            ({
                let ws = weights_of(old(self).task_sets@);
                let wt = sum_weights(ws, old(self).task_sets@.len() as int);
                forall|i: int|
                    0 <= i < old(self).task_sets@.len() ==> clients * ws[i] < wt * (
                    #[trigger] count_set(final (self).weighted_clients@, i)) + wt && wt
                        * count_set(final (self).weighted_clients@, i) <= clients * ws[i] + wt
            }),
            final (self).weighted_clients_order@.len() == clients,
            final (self).weighted_clients_order@.to_multiset() == Seq::new(
                clients as nat,
                |i: int| i as usize,
            ).to_multiset(),
    {
        let users = allocate_users(&self.task_sets, clients, &self.host, config);
        let order = launch_order(clients);
        self.weighted_clients = users;
        self.weighted_clients_order = order;
    }
}

} // verus!
