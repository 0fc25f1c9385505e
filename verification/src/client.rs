//! The per-user client state: host resolution, run mode, schedules and the
//! request recorder.

use vstd::prelude::*;

use crate::request::{
    find_req, fresh_request_view, store_keys_unique, store_view, updated_request, GooseMethod,
    GooseRequest, RequestView,
};
use crate::urls;
use crate::GooseConfiguration;
use crate::GooseError;
use crate::goose::{mode_rank, GooseClientMode};

verus! {

/// The view of an optional host string.
pub open spec fn opt_str_view(o: Option<String>) -> Option<Seq<char>> {
    match o {
        Some(s) => Some(s@),
        None => None,
    }
}

/// Host resolution precedence: an absolute URL in the path wins unchanged;
/// otherwise the command-line host, then the task set's host, then the
/// engine default serve as the base the path is joined onto. With no host
/// at all the request cannot be built.
pub open spec fn resolved_url(
    cli_host: Seq<char>,
    task_set_host: Option<Seq<char>>,
    default_host: Option<Seq<char>>,
    path: Seq<char>,
) -> Result<Seq<char>, GooseError> {
    if urls::is_url_with_host(path) {
        Ok(path)
    } else {
        let base = if cli_host.len() > 0 {
            Some(cli_host)
        } else if task_set_host is Some {
            task_set_host
        } else {
            default_host
        };
        match base {
            Some(b) => match urls::url_join(b, path) {
                Some(u) => Ok(u),
                None => Err(GooseError::UrlBuildError),
            },
            None => Err(GooseError::ConfigurationError),
        }
    }
}

/// Law: host resolution follows the precedence order exactly: an
/// absolute URL wins unchanged, then the command-line host, the task
/// set's host and the engine default in that order serve as base, and
/// with no host at all the request fails as a configuration error.
pub proof fn lemma_host_precedence(
    cli_host: Seq<char>,
    task_set_host: Option<Seq<char>>,
    default_host: Option<Seq<char>>,
    path: Seq<char>,
)
    ensures
        urls::is_url_with_host(path) ==> resolved_url(cli_host, task_set_host, default_host, path)
            == Ok::<Seq<char>, GooseError>(path),
        !urls::is_url_with_host(path) && cli_host.len() > 0 ==> resolved_url(
            cli_host,
            task_set_host,
            default_host,
            path,
        ) == joined_or_error(cli_host, path),
        !urls::is_url_with_host(path) && cli_host.len() == 0 && task_set_host is Some
            ==> resolved_url(cli_host, task_set_host, default_host, path) == joined_or_error(
            task_set_host->0,
            path,
        ),
        !urls::is_url_with_host(path) && cli_host.len() == 0 && task_set_host is None
            && default_host is Some ==> resolved_url(cli_host, task_set_host, default_host, path)
            == joined_or_error(default_host->0, path),
        !urls::is_url_with_host(path) && cli_host.len() == 0 && task_set_host is None
            && default_host is None ==> resolved_url(cli_host, task_set_host, default_host, path)
            == Err::<Seq<char>, GooseError>(GooseError::ConfigurationError),
{
}

/// The outcome of joining a path onto a chosen base: the joined URL, or
/// a build error when the join fails.
pub open spec fn joined_or_error(base: Seq<char>, path: Seq<char>) -> Result<
    Seq<char>,
    GooseError,
> {
    match urls::url_join(base, path) {
        Some(u) => Ok(u),
        None => Err(GooseError::UrlBuildError),
    }
}

/// The recorder key of a request: the task's request-name override when
/// set, else the URL's path component, else a fixed marker for a URL that
/// does not parse.
pub open spec fn request_key(request_name: Seq<char>, url: Seq<char>) -> Seq<char> {
    if request_name.len() > 0 {
        request_name
    } else {
        match urls::url_path_of(url) {
            Some(p) => p,
            None => "parse error"@,
        }
    }
}

/// An individual client state, repeatedly running tasks of one task set.
#[derive(Debug)]
pub struct GooseClient {
    /// Which task set of the engine this client runs.
    pub task_sets_index: usize,
    /// The engine-wide default host.
    pub default_host: Option<String>,
    /// The task set's default host.
    pub task_set_host: Option<String>,
    /// Minimum seconds to sleep after running a task.
    pub min_wait: usize,
    /// Maximum seconds to sleep after running a task.
    pub max_wait: usize,
    /// A local copy of the global configuration.
    pub config: GooseConfiguration,
    /// This client's position in the engine's weighted client vector.
    pub weighted_clients_index: usize,
    /// The current run mode; moves only forward, INIT to EXITING.
    pub mode: GooseClientMode,
    /// The schedule of on-start tasks.
    pub weighted_on_start_tasks: Vec<Vec<usize>>,
    /// The steady schedule this client walks while running.
    pub weighted_tasks: Vec<Vec<usize>>,
    /// Which bucket of the steady schedule the cursor is in.
    pub weighted_bucket: usize,
    /// The position inside the current bucket.
    pub weighted_bucket_position: usize,
    /// The schedule of on-stop tasks.
    pub weighted_on_stop_tasks: Vec<Vec<usize>>,
    /// Name under which requests of the current task are recorded; empty
    /// when unset, then the URL path is used.
    pub request_name: String,
    /// Statistics about every request this client made, one record per
    /// method / name pair.
    pub requests: Vec<GooseRequest>,
}

impl GooseClient {
    /// The recorder holds one well-formed record per method / name pair.
    pub open spec fn requests_wf(self) -> bool {
        &&& store_keys_unique(store_view(self.requests@))
        &&& forall|i: int|
            0 <= i < self.requests@.len() ==> (#[trigger] store_view(self.requests@)[i]).wf()
    }

    /// Create a new client state for one simulated user of a task set.
    pub fn new(
        task_sets_index: usize,
        default_host: Option<String>,
        task_set_host: Option<String>,
        min_wait: usize,
        max_wait: usize,
        configuration: &GooseConfiguration,
    ) -> (c: GooseClient)
        ensures
            c.task_sets_index == task_sets_index,
            c.default_host == default_host,
            c.task_set_host == task_set_host,
            c.min_wait == min_wait,
            c.max_wait == max_wait,
            c.config.host@ == configuration.host@,
            c.config.print_stats == configuration.print_stats,
            c.config.status_codes == configuration.status_codes,
            c.config.no_metrics == configuration.no_metrics,
            c.config.no_task_metrics == configuration.no_task_metrics,
            c.weighted_clients_index == usize::MAX,
            c.mode == GooseClientMode::INIT,
            c.weighted_on_start_tasks@ == Seq::<Vec<usize>>::empty(),
            c.weighted_tasks@ == Seq::<Vec<usize>>::empty(),
            c.weighted_bucket == 0,
            c.weighted_bucket_position == 0,
            c.weighted_on_stop_tasks@ == Seq::<Vec<usize>>::empty(),
            c.request_name@ == Seq::<char>::empty(),
            c.requests@ == Seq::<GooseRequest>::empty(),
            c.requests_wf(),
    {
        let c = GooseClient {
            task_sets_index,
            default_host,
            task_set_host,
            min_wait,
            max_wait,
            config: GooseConfiguration {
                host: configuration.host.clone(),
                print_stats: configuration.print_stats,
                status_codes: configuration.status_codes,
                no_metrics: configuration.no_metrics,
                no_task_metrics: configuration.no_task_metrics,
            },
            weighted_clients_index: usize::MAX,
            mode: GooseClientMode::INIT,
            weighted_on_start_tasks: Vec::new(),
            weighted_tasks: Vec::new(),
            weighted_bucket: 0,
            weighted_bucket_position: 0,
            weighted_on_stop_tasks: Vec::new(),
            request_name: String::new(),
            requests: Vec::new(),
        };
        proof {
            assert(c.weighted_on_start_tasks@ =~= Seq::<Vec<usize>>::empty());
            assert(c.weighted_tasks@ =~= Seq::<Vec<usize>>::empty());
            assert(c.weighted_on_stop_tasks@ =~= Seq::<Vec<usize>>::empty());
            assert(c.requests@ =~= Seq::<GooseRequest>::empty());
        }
        c
    }

    /// Move the client to a new run mode; modes only ever advance.
    pub fn set_mode(&mut self, mode: GooseClientMode)
        requires
            mode_rank(mode) >= mode_rank(old(self).mode),
        ensures
            *final (self) == (GooseClient { mode, ..*old(self) }),
    {
        self.mode = mode;
    }

    /// Resolve the URL a request for `path` goes to, by the host
    /// precedence: an absolute URL in `path` is used unchanged, else the
    /// command-line host, the task set host or the engine default is the
    /// base `path` is joined onto.
    pub fn build_url(&self, path: &str) -> (r: Result<String, GooseError>)
        ensures
            ({
                let resolved = resolved_url(
                    self.config.host@,
                    opt_str_view(self.task_set_host),
                    opt_str_view(self.default_host),
                    path@,
                );
                match r {
                    Ok(u) => resolved == Ok::<Seq<char>, GooseError>(u@),
                    Err(e) => resolved == Err::<Seq<char>, GooseError>(e),
                }
            }),
    {
        if urls::str_has_url_host(path) {
            return Ok(path.to_owned());
        }
        let base: Option<&String> = if !self.config.host.as_str().is_empty() {
            Some(&self.config.host)
        } else {
            match &self.task_set_host {
                Some(h) => Some(h),
                None => match &self.default_host {
                    Some(h) => Some(h),
                    None => None,
                },
            }
        };
        match base {
            Some(b) => match urls::join_url(b.as_str(), path) {
                Some(u) => Ok(u),
                None => Err(GooseError::UrlBuildError),
            },
            None => Err(GooseError::ConfigurationError),
        }
    }

    /// Find the record for a method / name pair, if one exists.
    fn find_request_index(&self, path: &str, method: &GooseMethod) -> (r: Option<usize>)
        ensures
            ({
                let f = find_req(store_view(self.requests@), *method, path@);
                match r {
                    Some(i) => f == i,
                    None => f == -1,
                }
            }),
    {
        let key = path.to_owned();
        let n = self.requests.len();
        let mut i: usize = 0;
        while i < n
            invariant
                i <= n,
                n == self.requests@.len(),
                key@ == path@,
                forall|k: int|
                    0 <= k < i ==> !((#[trigger] store_view(self.requests@)[k]).method == *method
                        && store_view(self.requests@)[k].path == path@),
            decreases n - i,
        {
            if self.requests[i].method == *method && self.requests[i].path == key {
                proof {
                    crate::request::lemma_find_req_is(
                        store_view(self.requests@),
                        *method,
                        path@,
                        i as int,
                    );
                }
                return Some(i);
            }
            i += 1;
        }
        proof {
            crate::request::lemma_find_req_none(store_view(self.requests@), *method, path@);
        }
        None
    }

    /// Look up the statistics record for a method / name pair, returning a
    /// copy, or a fresh empty record when the pair was never seen.
    pub fn get_request(&mut self, path: &str, method: &GooseMethod) -> (r: GooseRequest)
        ensures
            *final (self) == *old(self),
            ({
                let sv = store_view(old(self).requests@);
                let f = find_req(sv, *method, path@);
                if f >= 0 {
                    r@ == sv[f]
                } else {
                    r@ == fresh_request_view(path@, *method)
                }
            }),
    {
        proof {
            crate::request::lemma_find_req(store_view(self.requests@), *method, path@);
        }
        match self.find_request_index(path, method) {
            Some(i) => self.requests[i].duplicate(),
            None => GooseRequest::new(path, *method),
        }
    }

    /// Store a statistics record under a method / name pair, replacing any
    /// record already there.
    pub fn set_request(&mut self, path: &str, method: &GooseMethod, request: GooseRequest)
        requires
            request@.path == path@,
            request@.method == *method,
        ensures
            ({
                let sv = store_view(old(self).requests@);
                let f = find_req(sv, *method, path@);
                if f >= 0 {
                    store_view(final (self).requests@) == sv.update(f, request@)
                } else {
                    store_view(final (self).requests@) == sv.push(request@)
                }
            }),
            *final (self) == (GooseClient { requests: final (self).requests, ..*old(self) }),
    {
        proof {
            crate::request::lemma_find_req(store_view(self.requests@), *method, path@);
        }
        let ghost sv = store_view(self.requests@);
        match self.find_request_index(path, method) {
            Some(i) => {
                self.requests[i] = request;
                proof {
                    assert(store_view(self.requests@) =~= sv.update(i as int, request@));
                }
            },
            None => {
                self.requests.push(request);
                proof {
                    assert(store_view(self.requests@) =~= sv.push(request@));
                }
            },
        }
    }

    /// Record the outcome of one executed request: a timing sample, the
    /// status-code counter when enabled, and the success / failure count.
    /// Does nothing unless statistics are enabled. The record's key is the
    /// current request-name override, or the URL's path component.
    pub fn track_request(
        &mut self,
        method: GooseMethod,
        url: &str,
        elapsed_ms: u64,
        status_code: Option<u16>,
    )
        requires
            old(self).requests_wf(),
            status_code is Some ==> status_code->0 != 0,
        ensures
            final (self).requests_wf(),
            *final (self) == (GooseClient { requests: final (self).requests, ..*old(self) }),
            !old(self).config.print_stats ==> final (self).requests@ == old(self).requests@,
            old(self).config.print_stats ==> ({
                let name = request_key(old(self).request_name@, url@);
                let sv = store_view(old(self).requests@);
                let f = find_req(sv, method, name);
                let prev = if f >= 0 {
                    sv[f]
                } else {
                    fresh_request_view(name, method)
                };
                let updated = updated_request(
                    prev,
                    elapsed_ms,
                    status_code,
                    old(self).config.status_codes,
                );
                if f >= 0 {
                    store_view(final (self).requests@) == sv.update(f, updated)
                } else {
                    store_view(final (self).requests@) == sv.push(updated)
                }
            }),
    {
        if !self.config.print_stats {
            return ;
        }
        let ghost sv = store_view(self.requests@);
        let name: String = if !self.request_name.as_str().is_empty() {
            self.request_name.clone()
        } else {
            match urls::parse_url_path(url) {
                Some(p) => p,
                None => "parse error".to_owned(),
            }
        };
        let ghost f = find_req(sv, method, name@);
        proof {
            crate::request::lemma_find_req(sv, method, name@);
        }
        let mut rec = self.get_request(name.as_str(), &method);
        proof {
            if f >= 0 {
                assert(sv[f].wf());
            }
            crate::request::lemma_updated_request_wf(
                rec@,
                elapsed_ms,
                status_code,
                self.config.status_codes,
            );
        }
        if rec.response_times.len() < usize::MAX {
            rec.set_response_time(elapsed_ms);
            if self.config.status_codes {
                rec.set_status_code(status_code);
            }
            if crate::request::status_is_success(status_code) {
                rec.success_count = rec.success_count + 1;
            } else {
                rec.fail_count = rec.fail_count + 1;
            }
        }
        let ghost updated = updated_request(
            (if f >= 0 {
                sv[f]
            } else {
                fresh_request_view(name@, method)
            }),
            elapsed_ms,
            status_code,
            self.config.status_codes,
        );
        proof {
            assert(rec@ =~= updated);
        }
        self.set_request(name.as_str(), &method, rec);
        proof {
            let nsv = store_view(self.requests@);
            if f >= 0 {
                crate::request::lemma_unique_update_same_key(sv, f, updated);
                assert forall|i: int| 0 <= i < nsv.len() implies (#[trigger] nsv[i]).wf() by {
                    if i != f {
                        assert(nsv[i] == sv[i]);
                    }
                }
            } else {
                crate::request::lemma_unique_push_new(sv, updated);
                assert forall|i: int| 0 <= i < nsv.len() implies (#[trigger] nsv[i]).wf() by {
                    if i < sv.len() {
                        assert(nsv[i] == sv[i]);
                    }
                }
            }
        }
    }
}

} // verus!
