//! Per-endpoint request statistics: a record keyed by method and request
//! name, holding timing samples, per-status-code counters and the running
//! success / failure counts.

use vstd::prelude::*;

verus! {

/// HTTP methods the engine can issue; the recorder key distinguishes them,
/// so `(GET, "/x")` and `(POST, "/x")` are separate records.
#[derive(Clone, Copy, Debug, PartialEq, Eq, Structural)]
#[allow(clippy::upper_case_acronyms)]
pub enum GooseMethod {
    GET,
    POST,
    HEAD,
    PUT,
    PATCH,
    DELETE,
}

/// Mathematical model of a request record.
#[verifier::ext_equal]
pub ghost struct RequestView {
    pub path: Seq<char>,
    pub method: GooseMethod,
    pub response_times: Seq<u64>,
    pub status_code_counts: Seq<(u16, usize)>,
    pub success_count: usize,
    pub fail_count: usize,
}

/// Statistics collected about one method / request-name pair.
#[derive(Debug)]
pub struct GooseRequest {
    /// The request name (by default the URL path) the statistics are for.
    pub path: String,
    /// The method the statistics are for.
    pub method: GooseMethod,
    /// Every response time observed, in integer milliseconds.
    pub response_times: Vec<u64>,
    /// How often each status code was returned; code 0 stands for a
    /// transport failure that produced no HTTP response.
    pub status_code_counts: Vec<(u16, usize)>,
    /// How many requests got a successful (2xx) response.
    pub success_count: usize,
    /// How many requests failed (non-2xx response or transport failure).
    pub fail_count: usize,
}

impl View for GooseRequest {
    type V = RequestView;

    open spec fn view(&self) -> RequestView {
        RequestView {
            path: self.path@,
            method: self.method,
            response_times: self.response_times@,
            status_code_counts: self.status_code_counts@,
            success_count: self.success_count,
            fail_count: self.fail_count,
        }
    }
}

/// The counter key a response is bucketed under: the status code itself,
/// or 0 when the request failed in transport and no code exists.
pub open spec fn status_key(status_code: Option<u16>) -> u16 {
    match status_code {
        Some(c) => c,
        None => 0,
    }
}

/// Whether a response outcome counts as a success: a 2xx status code.
/// A transport failure (no code at all) is never a success.
pub open spec fn spec_status_is_success(status_code: Option<u16>) -> bool {
    match status_code {
        Some(c) => 200 <= c < 300,
        None => false,
    }
}

/// Whether a response outcome counts as a success: a 2xx status code.
pub fn status_is_success(status_code: Option<u16>) -> (r: bool)
    ensures
        r == spec_status_is_success(status_code),
{
    match status_code {
        Some(c) => 200 <= c && c < 300,
        None => false,
    }
}

/// No two counter entries are for the same status code.
pub open spec fn counts_keys_unique(s: Seq<(u16, usize)>) -> bool {
    forall|i: int, j: int|
        0 <= i < j < s.len() ==> (#[trigger] s[i]).0 != (#[trigger] s[j]).0
}

/// The counter stored for `code`, or 0 when no entry exists.
pub open spec fn count_for(s: Seq<(u16, usize)>, code: u16) -> nat
    decreases s.len(),
{
    if s.len() == 0 {
        0
    } else if s[0].0 == code {
        s[0].1 as nat
    } else {
        count_for(s.drop_first(), code)
    }
}

/// The index of the first counter entry for `code`, or -1 when none exists.
pub open spec fn count_index(s: Seq<(u16, usize)>, code: u16) -> int
    decreases s.len(),
{
    if s.len() == 0 {
        -1
    } else if s[0].0 == code {
        0
    } else {
        let r = count_index(s.drop_first(), code);
        if r == -1 {
            -1
        } else {
            r + 1
        }
    }
}

/// The counter list after one more observation of `key`: the entry for
/// `key` incremented (saturating at the maximum), or a fresh entry at 1.
pub open spec fn bump_count(s: Seq<(u16, usize)>, key: u16) -> Seq<(u16, usize)> {
    let i = count_index(s, key);
    if i == -1 {
        s.push((key, 1))
    } else {
        let c = s[i].1;
        s.update(i, (key, if c < usize::MAX { (c + 1) as usize } else { c }))
    }
}

/// `count_index` finds the first matching entry, and only that.
pub proof fn lemma_count_index(s: Seq<(u16, usize)>, code: u16)
    ensures
        count_index(s, code) == -1 ==> forall|k: int|
            0 <= k < s.len() ==> (#[trigger] s[k]).0 != code,
        count_index(s, code) != -1 ==> {
            &&& 0 <= count_index(s, code) < s.len()
            &&& s[count_index(s, code)].0 == code
            &&& forall|k: int| 0 <= k < count_index(s, code) ==> (#[trigger] s[k]).0 != code
        },
    decreases s.len(),
{
    if s.len() != 0 && s[0].0 != code {
        lemma_count_index(s.drop_first(), code);
        assert forall|k: int| 0 <= k < s.len() && count_index(s, code) == -1 implies (
        #[trigger] s[k]).0 != code by {
            if k > 0 {
                assert(s.drop_first()[k - 1] == s[k]);
            }
        }
        if count_index(s, code) != -1 {
            let i = count_index(s, code);
            assert(s.drop_first()[i - 1] == s[i]);
            assert forall|k: int| 0 <= k < i implies (#[trigger] s[k]).0 != code by {
                if k > 0 {
                    assert(s.drop_first()[k - 1] == s[k]);
                }
            }
        }
    }
}

/// If entry `i` is the first one for `code`, `count_index` returns `i`.
pub proof fn lemma_count_index_is(s: Seq<(u16, usize)>, code: u16, i: int)
    requires
        0 <= i < s.len(),
        s[i].0 == code,
        forall|k: int| 0 <= k < i ==> (#[trigger] s[k]).0 != code,
    ensures
        count_index(s, code) == i,
    decreases s.len(),
{
    if i > 0 {
        assert forall|k: int| 0 <= k < i - 1 implies (#[trigger] s.drop_first()[k]).0 != code by {
            assert(s.drop_first()[k] == s[k + 1]);
        }
        assert(s.drop_first()[i - 1] == s[i]);
        lemma_count_index_is(s.drop_first(), code, i - 1);
    }
}

/// `count_for` reads the counter at the index `count_index` finds.
pub proof fn lemma_count_for_at_index(s: Seq<(u16, usize)>, code: u16)
    ensures
        count_index(s, code) == -1 ==> count_for(s, code) == 0,
        count_index(s, code) != -1 ==> count_for(s, code) == s[count_index(s, code)].1 as nat,
    decreases s.len(),
{
    lemma_count_index(s, code);
    if s.len() != 0 && s[0].0 != code {
        lemma_count_for_at_index(s.drop_first(), code);
        lemma_count_index(s.drop_first(), code);
        if count_index(s, code) != -1 {
            assert(s.drop_first()[count_index(s, code) - 1] == s[count_index(s, code)]);
        }
    }
}

/// How `bump_count` moves every counter: the bumped key goes up by one
/// (saturating), every other key is untouched, and no entry for code 0 is
/// ever created unless 0 itself is the key.
pub proof fn lemma_bump_count(s: Seq<(u16, usize)>, key: u16)
    requires
        counts_keys_unique(s),
    ensures
        counts_keys_unique(bump_count(s, key)),
        count_for(bump_count(s, key), key) == if count_for(s, key) < usize::MAX {
            count_for(s, key) + 1
        } else {
            count_for(s, key)
        },
        forall|c: u16| c != key ==> count_for(bump_count(s, key), c) == count_for(s, c),
{
    lemma_count_index(s, key);
    lemma_count_for_at_index(s, key);
    let i = count_index(s, key);
    let t = bump_count(s, key);
    if i == -1 {
        assert forall|c: u16| count_for(t, c) == if c == key {
            1nat
        } else {
            count_for(s, c)
        } by {
            lemma_count_for_push(s, (key, 1), c);
        }
    } else {
        assert forall|c: u16| #![auto] count_for(t, c) == if c == key {
            (if s[i].1 < usize::MAX {
                s[i].1 + 1
            } else {
                s[i].1 as int
            }) as nat
        } else {
            count_for(s, c)
        } by {
            lemma_count_for_update(s, i, t[i], c);
        }
    }
}

/// Appending a fresh entry leaves all other counters unchanged.
proof fn lemma_count_for_push(s: Seq<(u16, usize)>, p: (u16, usize), c: u16)
    requires
        forall|k: int| 0 <= k < s.len() ==> (#[trigger] s[k]).0 != p.0,
    ensures
        count_for(s.push(p), c) == if c == p.0 {
            p.1 as nat
        } else {
            count_for(s, c)
        },
    decreases s.len(),
{
    let t = s.push(p);
    assert(t.len() == s.len() + 1);
    if s.len() == 0 {
        assert(t[0] == p);
        if c != p.0 {
            assert(t[0].0 != c);
            assert(t.drop_first() =~= Seq::<(u16, usize)>::empty());
            assert(count_for(t.drop_first(), c) == 0);
            assert(count_for(t, c) == 0);
        } else {
            assert(count_for(t, c) == p.1 as nat);
        }
    } else {
        assert(t[0] == s[0]);
        assert(t.drop_first() =~= s.drop_first().push(p));
        assert forall|k: int| 0 <= k < s.drop_first().len() implies (
        #[trigger] s.drop_first()[k]).0 != p.0 by {
            assert(s.drop_first()[k] == s[k + 1]);
        }
        lemma_count_for_push(s.drop_first(), p, c);
        assert(count_for(t.drop_first(), c) == if c == p.0 {
            p.1 as nat
        } else {
            count_for(s.drop_first(), c)
        });
        assert(s[0].0 != p.0);
        if t[0].0 == c {
            assert(count_for(t, c) == t[0].1 as nat);
            assert(count_for(s, c) == s[0].1 as nat);
            assert(c != p.0);
        } else {
            assert(count_for(t, c) == count_for(t.drop_first(), c));
            assert(count_for(s, c) == count_for(s.drop_first(), c));
        }
    }
}

/// Updating the entry at `i` in place moves only the counter of its key.
proof fn lemma_count_for_update(s: Seq<(u16, usize)>, i: int, p: (u16, usize), c: u16)
    requires
        counts_keys_unique(s),
        0 <= i < s.len(),
        s[i].0 == p.0,
    ensures
        count_for(s.update(i, p), c) == if c == p.0 {
            p.1 as nat
        } else {
            count_for(s, c)
        },
    decreases s.len(),
{
    lemma_count_index(s, p.0);
    lemma_count_index_is(s, p.0, i);
    let t = s.update(i, p);
    if i == 0 {
        if c != p.0 {
            assert(t.drop_first() =~= s.drop_first());
        }
    } else {
        assert(t[0] == s[0]);
        assert(t.drop_first() =~= s.drop_first().update(i - 1, p));
        assert(s.drop_first()[i - 1] == s[i]);
        assert forall|a: int, b: int|
            0 <= a < b < s.drop_first().len() implies (#[trigger] s.drop_first()[a]).0 != (
        #[trigger] s.drop_first()[b]).0 by {
            assert(s.drop_first()[a] == s[a + 1]);
            assert(s.drop_first()[b] == s[b + 1]);
        }
        lemma_count_for_update(s.drop_first(), i - 1, p, c);
    }
}

impl RequestView {
    /// The record's success and failure counts account for exactly its
    /// timing samples.
    pub open spec fn balanced(self) -> bool {
        self.success_count + self.fail_count == self.response_times.len()
    }

    /// A well-formed record: one counter entry per status code, and the
    /// success / failure counts in step with the samples.
    pub open spec fn wf(self) -> bool {
        &&& counts_keys_unique(self.status_code_counts)
        &&& self.balanced()
    }
}

/// A record as it is first created for a method / name pair.
pub open spec fn fresh_request_view(path: Seq<char>, method: GooseMethod) -> RequestView {
    RequestView {
        path: path,
        method: method,
        response_times: Seq::<u64>::empty(),
        status_code_counts: Seq::<(u16, usize)>::empty(),
        success_count: 0,
        fail_count: 0,
    }
}

/// A record after one more executed request: a sample appended, the
/// status counter bumped when enabled, and exactly one of the success or
/// failure counts incremented. A record whose sample vector has reached
/// the machine limit is left unchanged.
pub open spec fn updated_request(
    r: RequestView,
    elapsed: u64,
    status_code: Option<u16>,
    count_status: bool,
) -> RequestView {
    if r.response_times.len() >= usize::MAX {
        r
    } else {
        RequestView {
            path: r.path,
            method: r.method,
            response_times: r.response_times.push(elapsed),
            status_code_counts: if count_status {
                bump_count(r.status_code_counts, status_key(status_code))
            } else {
                r.status_code_counts
            },
            success_count: if spec_status_is_success(status_code) {
                (r.success_count + 1) as usize
            } else {
                r.success_count
            },
            fail_count: if spec_status_is_success(status_code) {
                r.fail_count
            } else {
                (r.fail_count + 1) as usize
            },
        }
    }
}

/// Law: recording an outcome keeps a record well-formed; in particular
/// success + fail still equals the number of timing samples, and the key
/// is untouched.
pub proof fn lemma_updated_request_wf(
    r: RequestView,
    elapsed: u64,
    status_code: Option<u16>,
    count_status: bool,
)
    requires
        r.wf(),
    ensures
        updated_request(r, elapsed, status_code, count_status).wf(),
        updated_request(r, elapsed, status_code, count_status).path == r.path,
        updated_request(r, elapsed, status_code, count_status).method == r.method,
{
    if r.response_times.len() < usize::MAX && count_status {
        lemma_bump_count(r.status_code_counts, status_key(status_code));
    }
}

/// Law: the counter for status code 0 moves exactly on transport
/// failures; an HTTP-returned code (which is never 0) leaves it alone.
pub proof fn lemma_status_zero_transport_only(
    r: RequestView,
    elapsed: u64,
    status_code: Option<u16>,
    count_status: bool,
)
    requires
        r.wf(),
        status_code is Some ==> status_code->0 != 0,
    ensures
        status_code is Some ==> count_for(
            updated_request(r, elapsed, status_code, count_status).status_code_counts,
            0,
        ) == count_for(r.status_code_counts, 0),
        ({
            let c0 = count_for(r.status_code_counts, 0);
            status_code is None && count_status && r.response_times.len() < usize::MAX
                ==> count_for(
                updated_request(r, elapsed, status_code, count_status).status_code_counts,
                0,
            ) == if c0 < usize::MAX {
                c0 + 1
            } else {
                c0
            }
        }),
{
    if count_status && r.response_times.len() < usize::MAX {
        lemma_bump_count(r.status_code_counts, status_key(status_code));
    }
}

/// The view of a whole recorder store.
pub open spec fn store_view(s: Seq<GooseRequest>) -> Seq<RequestView> {
    Seq::new(s.len(), |i: int| s[i]@)
}

/// No two records in a store share a method / name key.
pub open spec fn store_keys_unique(s: Seq<RequestView>) -> bool {
    forall|i: int, j: int|
        0 <= i < j < s.len() ==> !((#[trigger] s[i]).method == (#[trigger] s[j]).method
            && s[i].path == s[j].path)
}

/// The index of the first record for a method / name pair, or -1.
pub open spec fn find_req(s: Seq<RequestView>, method: GooseMethod, name: Seq<char>) -> int
    decreases s.len(),
{
    if s.len() == 0 {
        -1
    } else if s[0].method == method && s[0].path == name {
        0
    } else {
        let r = find_req(s.drop_first(), method, name);
        if r == -1 {
            -1
        } else {
            r + 1
        }
    }
}

/// `find_req` finds the first matching record, and only that.
pub proof fn lemma_find_req(s: Seq<RequestView>, method: GooseMethod, name: Seq<char>)
    ensures
        find_req(s, method, name) == -1 ==> forall|k: int|
            0 <= k < s.len() ==> !((#[trigger] s[k]).method == method && s[k].path == name),
        find_req(s, method, name) != -1 ==> {
            &&& 0 <= find_req(s, method, name) < s.len()
            &&& s[find_req(s, method, name)].method == method
            &&& s[find_req(s, method, name)].path == name
        },
    decreases s.len(),
{
    if s.len() != 0 && !(s[0].method == method && s[0].path == name) {
        lemma_find_req(s.drop_first(), method, name);
        let f = find_req(s, method, name);
        if f == -1 {
            assert forall|k: int| 0 <= k < s.len() implies !((#[trigger] s[k]).method == method
                && s[k].path == name) by {
                if k > 0 {
                    assert(s.drop_first()[k - 1] == s[k]);
                }
            }
        } else {
            assert(s.drop_first()[f - 1] == s[f]);
        }
    }
}

/// If record `i` is the first one for the pair, `find_req` returns `i`.
pub proof fn lemma_find_req_is(s: Seq<RequestView>, method: GooseMethod, name: Seq<char>, i: int)
    requires
        0 <= i < s.len(),
        s[i].method == method,
        s[i].path == name,
        forall|k: int| 0 <= k < i ==> !((#[trigger] s[k]).method == method && s[k].path == name),
    ensures
        find_req(s, method, name) == i,
    decreases s.len(),
{
    if i > 0 {
        assert forall|k: int|
            0 <= k < i - 1 implies !((#[trigger] s.drop_first()[k]).method == method
            && s.drop_first()[k].path == name) by {
            assert(s.drop_first()[k] == s[k + 1]);
        }
        assert(s.drop_first()[i - 1] == s[i]);
        lemma_find_req_is(s.drop_first(), method, name, i - 1);
    }
}

/// If no record matches the pair, `find_req` returns -1.
pub proof fn lemma_find_req_none(s: Seq<RequestView>, method: GooseMethod, name: Seq<char>)
    requires
        forall|k: int| 0 <= k < s.len() ==> !((#[trigger] s[k]).method == method && s[k].path
            == name),
    ensures
        find_req(s, method, name) == -1,
    decreases s.len(),
{
    if s.len() != 0 {
        assert forall|k: int|
            0 <= k < s.drop_first().len() implies !((#[trigger] s.drop_first()[k]).method == method
            && s.drop_first()[k].path == name) by {
            assert(s.drop_first()[k] == s[k + 1]);
        }
        lemma_find_req_none(s.drop_first(), method, name);
    }
}

/// Replacing a record with one under the same key keeps keys unique.
pub proof fn lemma_unique_update_same_key(s: Seq<RequestView>, f: int, r: RequestView)
    requires
        store_keys_unique(s),
        0 <= f < s.len(),
        r.method == s[f].method,
        r.path == s[f].path,
    ensures
        store_keys_unique(s.update(f, r)),
{
}

/// Appending a record under a key no record holds keeps keys unique.
pub proof fn lemma_unique_push_new(s: Seq<RequestView>, r: RequestView)
    requires
        store_keys_unique(s),
        forall|k: int| 0 <= k < s.len() ==> !((#[trigger] s[k]).method == r.method && s[k].path
            == r.path),
    ensures
        store_keys_unique(s.push(r)),
{
}

impl GooseRequest {
    /// Everything a well-formed record guarantees; see `RequestView::wf`.
    pub open spec fn wf(self) -> bool {
        self@.wf()
    }

    /// Create a new, empty record for one method / name pair.
    pub fn new(path: &str, method: GooseMethod) -> (r: GooseRequest)
        ensures
            r@ == (RequestView {
                path: path@,
                method: method,
                response_times: Seq::<u64>::empty(),
                status_code_counts: Seq::<(u16, usize)>::empty(),
                success_count: 0,
                fail_count: 0,
            }),
            r.wf(),
    {
        let r = GooseRequest {
            path: path.to_owned(),
            method,
            response_times: Vec::new(),
            status_code_counts: Vec::new(),
            success_count: 0,
            fail_count: 0,
        };
        proof {
            assert(r@.response_times =~= Seq::<u64>::empty());
            assert(r@.status_code_counts =~= Seq::<(u16, usize)>::empty());
        }
        r
    }

    /// Append one response time, in integer milliseconds, to the sample
    /// vector.
    pub fn set_response_time(&mut self, response_time: u64)
        ensures
            final (self)@ == (RequestView {
                response_times: old(self)@.response_times.push(response_time),
                ..old(self)@
            }),
    {
        self.response_times.push(response_time);
    }

    /// Count one observation of a status code; `None` (a transport failure)
    /// is bucketed under code 0. HTTP never returns code 0, so that bucket
    /// counts transport failures alone.
    pub fn set_status_code(&mut self, status_code: Option<u16>)
        requires
            counts_keys_unique(old(self).status_code_counts@),
            status_code is Some ==> status_code->0 != 0,
        ensures
            final (self)@ == (RequestView {
                status_code_counts: bump_count(
                    old(self)@.status_code_counts,
                    status_key(status_code),
                ),
                ..old(self)@
            }),
            counts_keys_unique(final (self).status_code_counts@),
            // code 0 moves exactly on transport failures
            status_code is Some ==> count_for(final (self).status_code_counts@, 0) == count_for(
                old(self).status_code_counts@,
                0,
            ),
    {
        let key: u16 = match status_code {
            Some(c) => c,
            None => 0,
        };
        let ghost s = self.status_code_counts@;
        proof {
            lemma_count_index(s, key);
            lemma_bump_count(s, key);
        }
        let n = self.status_code_counts.len();
        let mut i: usize = 0;
        while i < n
            invariant
                i <= n,
                n == self.status_code_counts@.len(),
                self.status_code_counts@ == s,
                self.path == old(self).path,
                self.method == old(self).method,
                self.response_times == old(self).response_times,
                self.success_count == old(self).success_count,
                self.fail_count == old(self).fail_count,
                key == status_key(status_code),
                counts_keys_unique(s),
                s == old(self).status_code_counts@,
                status_code is Some ==> status_code->0 != 0,
                forall|k: int| 0 <= k < i ==> (#[trigger] s[k]).0 != key,
            decreases n - i,
        {
            let entry = self.status_code_counts[i];
            if entry.0 == key {
                proof {
                    lemma_count_index_is(s, key, i as int);
                    assert(entry == s[i as int]);
                }
                let c = entry.1;
                let newc = if c < usize::MAX {
                    c + 1
                } else {
                    c
                };
                self.status_code_counts[i] = (key, newc);
                proof {
                    lemma_bump_count(s, key);
                    assert(self.status_code_counts@ =~= s.update(i as int, (key, newc)));
                    assert(bump_count(s, key) =~= s.update(i as int, (key, newc)));
                }
                return ;
            }
            i += 1;
        }
        proof {
            lemma_count_index(s, key);
            assert(count_index(s, key) == -1) by {
                if count_index(s, key) != -1 {
                    assert(s[count_index(s, key)].0 == key);
                }
            }
        }
        self.status_code_counts.push((key, 1));
        proof {
            assert(bump_count(s, key) =~= s.push((key, 1)));
        }
    }

    /// An exact copy of the record.
    pub fn duplicate(&self) -> (r: GooseRequest)
        ensures
            r@ == self@,
    {
        GooseRequest {
            path: self.path.clone(),
            method: self.method,
            response_times: clone_vec_u64(&self.response_times),
            status_code_counts: clone_vec_counts(&self.status_code_counts),
            success_count: self.success_count,
            fail_count: self.fail_count,
        }
    }
}

fn clone_vec_u64(v: &Vec<u64>) -> (r: Vec<u64>)
    ensures
        r@ == v@,
{
    let mut r: Vec<u64> = Vec::new();
    let n = v.len();
    let mut i: usize = 0;
    while i < n
        invariant
            i <= n,
            n == v@.len(),
            r@ == v@.subrange(0, i as int),
        decreases n - i,
    {
        r.push(v[i]);
        proof {
            assert(r@ =~= v@.subrange(0, i + 1));
        }
        i += 1;
    }
    proof {
        assert(v@.subrange(0, n as int) =~= v@);
    }
    r
}

fn clone_vec_counts(v: &Vec<(u16, usize)>) -> (r: Vec<(u16, usize)>)
    ensures
        r@ == v@,
{
    let mut r: Vec<(u16, usize)> = Vec::new();
    let n = v.len();
    let mut i: usize = 0;
    while i < n
        invariant
            i <= n,
            n == v@.len(),
            r@ == v@.subrange(0, i as int),
        decreases n - i,
    {
        r.push(v[i]);
        proof {
            assert(r@ =~= v@.subrange(0, i + 1));
        }
        i += 1;
    }
    proof {
        assert(v@.subrange(0, n as int) =~= v@);
    }
    r
}

} // verus!
