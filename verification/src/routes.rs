//! The route registry: a list of routes with at most one entry per
//! hostname, the liveness filter, and the rules of the advisory lock.

use vstd::prelude::*;
use vstd::utf8::{decode_utf8, valid_utf8};
use crate::text::{
    chars_of, decimal, join_path, path_join, push_decimal, push_str, string_of, trim, trim_bounds,
};
use crate::types::{Route, RouteView};

verus! {

/// How often a contender tries to take the lock before it gives up.
pub const LOCK_MAX_RETRIES: u32 = 20;

/// Milliseconds between two tries.
pub const LOCK_RETRY_DELAY_MS: u64 = 50;

/// A lock older than this many milliseconds was left behind by a holder
/// that is gone.
pub const STALE_LOCK_THRESHOLD_MS: u64 = 10_000;

/// The values of the routes in `v`, in order.
pub open spec fn route_views(v: Seq<Route>) -> Seq<RouteView> {
    Seq::new(v.len(), |i: int| v[i]@)
}

/// `s` without the entries registered under `hostname`, in the same order.
pub open spec fn without_host(s: Seq<RouteView>, hostname: Seq<char>) -> Seq<RouteView>
    decreases s.len(),
{
    if s.len() == 0 {
        Seq::empty()
    } else if s.last().hostname == hostname {
        without_host(s.drop_last(), hostname)
    } else {
        without_host(s.drop_last(), hostname).push(s.last())
    }
}

/// The registry after `route` is added to `s`: whatever was registered
/// under its hostname is gone, and `route` stands last.
pub open spec fn with_route(s: Seq<RouteView>, route: RouteView) -> Seq<RouteView> {
    without_host(s, route.hostname).push(route)
}

/// The entries of `s` whose flag is set, in the same order.
pub open spec fn keep_flagged(s: Seq<RouteView>, flags: Seq<bool>) -> Seq<RouteView>
    recommends
        s.len() == flags.len(),
    decreases s.len(),
{
    if s.len() == 0 || flags.len() == 0 {
        Seq::empty()
    } else if flags.last() {
        keep_flagged(s.drop_last(), flags.drop_last()).push(s.last())
    } else {
        keep_flagged(s.drop_last(), flags.drop_last())
    }
}

/// Whether no two entries of `s` share a hostname.
pub open spec fn unique_hosts(s: Seq<RouteView>) -> bool {
    forall|i: int, j: int| 0 <= i < j < s.len() ==> s[i].hostname != s[j].hostname
}

/// Whether `sub` can be had from `s` by leaving entries out.
pub open spec fn is_selection(sub: Seq<RouteView>, s: Seq<RouteView>) -> bool {
    exists|flags: Seq<bool>| flags.len() == s.len() && sub == keep_flagged(s, flags)
}

/// Every entry of [`without_host`] is an entry of `s` under another
/// hostname, every entry of `s` under another hostname is still there, and
/// hostnames stay unique.
pub proof fn lemma_without_host(s: Seq<RouteView>, hostname: Seq<char>)
    ensures
        without_host(s, hostname).len() <= s.len(),
        forall|k: int|
            0 <= k < without_host(s, hostname).len() ==> (#[trigger] without_host(
                s,
                hostname,
            )[k]).hostname != hostname,
        forall|k: int|
            0 <= k < without_host(s, hostname).len() ==> s.contains(
                #[trigger] without_host(s, hostname)[k],
            ),
        forall|i: int|
            0 <= i < s.len() && (#[trigger] s[i]).hostname != hostname ==> without_host(
                s,
                hostname,
            ).contains(s[i]),
        unique_hosts(s) ==> unique_hosts(without_host(s, hostname)),
    decreases s.len(),
{
    let w = without_host(s, hostname);
    if s.len() > 0 {
        let t = s.drop_last();
        let wt = without_host(t, hostname);
        lemma_without_host(t, hostname);
        assert forall|k: int| 0 <= k < w.len() implies s.contains(#[trigger] w[k]) by {
            if k < wt.len() {
                assert(t.contains(wt[k]));
                let i = choose|i: int| 0 <= i < t.len() && t[i] == wt[k];
                assert(s[i] == wt[k]);
            } else {
                assert(s[s.len() - 1] == w[k]);
            }
        }
        assert forall|i: int| 0 <= i < s.len() && (#[trigger] s[i]).hostname
            != hostname implies w.contains(s[i]) by {
            if i < t.len() {
                assert(t[i] == s[i]);
                assert(wt.contains(t[i]));
                let k = choose|k: int| 0 <= k < wt.len() && wt[k] == t[i];
                assert(w[k] == s[i]);
            } else {
                assert(w[w.len() - 1] == s[i]);
            }
        }
        if unique_hosts(s) {
            assert(unique_hosts(t)) by {
                assert forall|i: int, j: int| 0 <= i < j < t.len() implies t[i].hostname
                    != t[j].hostname by {
                    assert(t[i] == s[i] && t[j] == s[j]);
                }
            }
            assert forall|a: int, b: int| 0 <= a < b < w.len() implies w[a].hostname
                != w[b].hostname by {
                if b == wt.len() {
                    assert(t.contains(wt[a]));
                    let i = choose|i: int| 0 <= i < t.len() && t[i] == wt[a];
                    assert(s[i] == wt[a]);
                    assert(s[i].hostname != s[s.len() - 1].hostname);
                }
            }
        }
    }
}

/// Adding a route keeps hostnames unique, puts the route last, and leaves
/// no other entry under its hostname.
pub proof fn lemma_with_route(s: Seq<RouteView>, route: RouteView)
    ensures
        with_route(s, route).last() == route,
        forall|k: int|
            0 <= k < with_route(s, route).len() - 1 ==> (#[trigger] with_route(
                s,
                route,
            )[k]).hostname != route.hostname,
        unique_hosts(s) ==> unique_hosts(with_route(s, route)),
        forall|i: int|
            0 <= i < s.len() && (#[trigger] s[i]).hostname != route.hostname ==> with_route(
                s,
                route,
            ).contains(s[i]),
{
    lemma_without_host(s, route.hostname);
    let w = without_host(s, route.hostname);
    let r = with_route(s, route);
    assert forall|k: int| 0 <= k < r.len() - 1 implies (#[trigger] r[k]).hostname
        != route.hostname by {
        assert(r[k] == w[k]);
    }
    assert forall|i: int| 0 <= i < s.len() && (#[trigger] s[i]).hostname
        != route.hostname implies r.contains(s[i]) by {
        assert(w.contains(s[i]));
        let k = choose|k: int| 0 <= k < w.len() && w[k] == s[i];
        assert(r[k] == s[i]);
    }
    if unique_hosts(s) {
        assert forall|a: int, b: int| 0 <= a < b < r.len() implies r[a].hostname
            != r[b].hostname by {
            assert(r[a] == w[a]);
            if b < w.len() {
                assert(r[b] == w[b]);
            }
        }
    }
}

/// Removing a hostname twice is removing it once.
pub proof fn lemma_without_host_twice(s: Seq<RouteView>, hostname: Seq<char>)
    ensures
        without_host(without_host(s, hostname), hostname) == without_host(s, hostname),
    decreases s.len(),
{
    if s.len() > 0 {
        lemma_without_host_twice(s.drop_last(), hostname);
        let rest = without_host(s.drop_last(), hostname);
        if s.last().hostname != hostname {
            assert(rest.push(s.last()).drop_last() =~= rest);
        }
    }
}

/// Removing the hostname of a route that was just added undoes the
/// addition, but for what the addition replaced.
pub proof fn lemma_remove_after_add(s: Seq<RouteView>, route: RouteView)
    ensures
        without_host(with_route(s, route), route.hostname) == without_host(s, route.hostname),
{
    let kept = without_host(s, route.hostname);
    assert(with_route(s, route).drop_last() =~= kept);
    lemma_without_host_twice(s, route.hostname);
}

/// The registry after the routes of `added` are added to `s`, one after
/// the other.
pub open spec fn with_routes(s: Seq<RouteView>, added: Seq<RouteView>) -> Seq<RouteView>
    decreases added.len(),
{
    if added.len() == 0 {
        s
    } else {
        with_route(with_routes(s, added.drop_last()), added.last())
    }
}

/// Whether no route after position `i` of `added` has the hostname of the
/// route at `i`.
pub open spec fn is_latest(added: Seq<RouteView>, i: int) -> bool {
    &&& 0 <= i < added.len()
    &&& forall|j: int| i < j < added.len() ==> (#[trigger] added[j]).hostname != added[i].hostname
}

/// After any sequence of additions to an empty registry, no two entries
/// share a hostname, every entry is the route that was added last under its
/// hostname, and every route that was added last under its hostname is an
/// entry.
pub proof fn lemma_additions_keep_latest(added: Seq<RouteView>)
    ensures
        unique_hosts(with_routes(Seq::empty(), added)),
        forall|k: int|
            0 <= k < with_routes(Seq::empty(), added).len() ==> exists|i: int|
                is_latest(added, i) && added[i] == #[trigger] with_routes(Seq::empty(), added)[k],
        forall|i: int|
            is_latest(added, i) ==> with_routes(Seq::empty(), added).contains(#[trigger] added[i]),
    decreases added.len(),
{
    let r = with_routes(Seq::empty(), added);
    if added.len() > 0 {
        let before = added.drop_last();
        let last = added.last();
        let prev = with_routes(Seq::empty(), before);
        lemma_additions_keep_latest(before);
        lemma_with_route(prev, last);
        lemma_without_host(prev, last.hostname);
        let w = without_host(prev, last.hostname);
        assert forall|k: int| 0 <= k < r.len() implies exists|i: int|
            is_latest(added, i) && added[i] == #[trigger] r[k] by {
            if k == r.len() - 1 {
                assert(is_latest(added, added.len() - 1));
            } else {
                assert(r[k] == w[k]);
                assert(prev.contains(w[k]));
                let m = choose|m: int| 0 <= m < prev.len() && prev[m] == w[k];
                let i = choose|i: int| is_latest(before, i) && before[i] == prev[m];
                assert(added[i] == before[i]);
                assert forall|j: int| i < j < added.len() implies (#[trigger] added[j]).hostname
                    != added[i].hostname by {
                    if j < before.len() {
                        assert(before[j] == added[j]);
                    }
                }
                assert(is_latest(added, i));
            }
        }
        assert forall|i: int| is_latest(added, i) implies r.contains(#[trigger] added[i]) by {
            if i == added.len() - 1 {
                assert(r[r.len() - 1] == added[i]);
            } else {
                assert(before[i] == added[i]);
                assert forall|j: int| i < j < before.len() implies (#[trigger] before[j]).hostname
                    != before[i].hostname by {
                    assert(before[j] == added[j]);
                }
                assert(is_latest(before, i));
                assert(prev.contains(before[i]));
                let m = choose|m: int| 0 <= m < prev.len() && prev[m] == before[i];
                assert(added[added.len() - 1].hostname != added[i].hostname);
                assert(r.contains(prev[m]));
            }
        }
    }
}

/// Where nothing is registered under a hostname, removing it changes
/// nothing.
pub proof fn lemma_without_absent_host(s: Seq<RouteView>, hostname: Seq<char>)
    requires
        forall|i: int| 0 <= i < s.len() ==> (#[trigger] s[i]).hostname != hostname,
    ensures
        without_host(s, hostname) == s,
    decreases s.len(),
{
    if s.len() > 0 {
        let t = s.drop_last();
        assert forall|i: int| 0 <= i < t.len() implies (#[trigger] t[i]).hostname != hostname by {
            assert(t[i] == s[i]);
        }
        lemma_without_absent_host(t, hostname);
        assert(s[s.len() - 1].hostname != hostname);
        assert(t.push(s.last()) =~= s);
    }
}

/// Additions under hostnames that all differ replace nothing: the registry
/// then holds exactly the routes that were added, each once, in the order
/// in which they came. So routes that several contenders add under
/// hostnames of their own are all there in the end, in whichever order the
/// lock let the contenders in.
pub proof fn lemma_additions_of_distinct_hosts(added: Seq<RouteView>)
    requires
        unique_hosts(added),
    ensures
        with_routes(Seq::empty(), added) == added,
    decreases added.len(),
{
    if added.len() > 0 {
        let before = added.drop_last();
        assert forall|i: int, j: int| 0 <= i < j < before.len() implies before[i].hostname
            != before[j].hostname by {
            assert(before[i] == added[i] && before[j] == added[j]);
        }
        lemma_additions_of_distinct_hosts(before);
        assert forall|i: int| 0 <= i < before.len() implies (#[trigger] before[i]).hostname
            != added.last().hostname by {
            assert(before[i] == added[i]);
        }
        lemma_without_absent_host(before, added.last().hostname);
        assert(before.push(added.last()) =~= added);
    } else {
        assert(with_routes(Seq::empty(), added) =~= added);
    }
}

/// Whether `x` stands at position `i` of `s` with its flag set.
pub open spec fn flagged_at(s: Seq<RouteView>, flags: Seq<bool>, i: int, x: RouteView) -> bool {
    0 <= i < s.len() && i < flags.len() && flags[i] && s[i] == x
}

/// Whether `x` is an entry of `s` whose flag is set.
pub open spec fn is_flagged(s: Seq<RouteView>, flags: Seq<bool>, x: RouteView) -> bool {
    exists|i: int| flagged_at(s, flags, i, x)
}

/// Every entry of [`keep_flagged`] is an entry of `s` whose flag is set,
/// and leaving entries out keeps hostnames unique.
pub proof fn lemma_keep_flagged(s: Seq<RouteView>, flags: Seq<bool>)
    requires
        s.len() == flags.len(),
    ensures
        keep_flagged(s, flags).len() <= s.len(),
        forall|k: int|
            0 <= k < keep_flagged(s, flags).len() ==> is_flagged(
                s,
                flags,
                #[trigger] keep_flagged(s, flags)[k],
            ),
        forall|i: int|
            0 <= i < s.len() && flags[i] ==> keep_flagged(s, flags).contains(#[trigger] s[i]),
        unique_hosts(s) ==> unique_hosts(keep_flagged(s, flags)),
    decreases s.len(),
{
    let w = keep_flagged(s, flags);
    if s.len() > 0 {
        let t = s.drop_last();
        let ft = flags.drop_last();
        let wt = keep_flagged(t, ft);
        lemma_keep_flagged(t, ft);
        assert forall|k: int| 0 <= k < w.len() implies is_flagged(s, flags, #[trigger] w[k]) by {
            if k < wt.len() {
                let i = choose|i: int| flagged_at(t, ft, i, wt[k]);
                assert(flagged_at(s, flags, i, w[k]));
            } else {
                assert(flagged_at(s, flags, s.len() - 1, w[k]));
            }
        }
        assert forall|i: int| 0 <= i < s.len() && flags[i] implies w.contains(
            #[trigger] s[i],
        ) by {
            if i < t.len() {
                assert(t[i] == s[i] && ft[i]);
                assert(wt.contains(t[i]));
                let k = choose|k: int| 0 <= k < wt.len() && wt[k] == t[i];
                assert(w[k] == s[i]);
            } else {
                assert(w[w.len() - 1] == s[i]);
            }
        }
        if unique_hosts(s) {
            assert(unique_hosts(t)) by {
                assert forall|i: int, j: int| 0 <= i < j < t.len() implies t[i].hostname
                    != t[j].hostname by {
                    assert(t[i] == s[i] && t[j] == s[j]);
                }
            }
            assert forall|a: int, b: int| 0 <= a < b < w.len() implies w[a].hostname
                != w[b].hostname by {
                if b == wt.len() {
                    let i = choose|i: int| flagged_at(t, ft, i, wt[a]);
                    assert(s[i] == wt[a]);
                    assert(s[i].hostname != s[s.len() - 1].hostname);
                }
            }
        }
    }
}

/// What came of sending the null signal to a process.
#[derive(Debug, Clone, Copy, PartialEq, Eq, Structural)]
pub enum ProbeOutcome {
    /// The signal could be sent.
    Delivered,
    /// There is no such process.
    NoSuchProcess,
    /// The process exists and belongs to someone else.
    PermissionDenied,
    /// The probe failed for another reason.
    Failed,
}

/// Calls `nix::sys::signal::kill` with no signal on the process (or, for
/// a value that is not positive, the process group) that `raw` names, and
/// reports which way it ended. Nothing is claimed of the outcome: it
/// depends on the processes that run at the time of the call.
#[verifier::external_body]
fn probe_pid(raw: i32) -> (outcome: ProbeOutcome) {
    match nix::sys::signal::kill(nix::unistd::Pid::from_raw(raw), None) {
        Ok(()) => ProbeOutcome::Delivered,
        Err(nix::errno::Errno::ESRCH) => ProbeOutcome::NoSuchProcess,
        Err(nix::errno::Errno::EPERM) => ProbeOutcome::PermissionDenied,
        Err(_) => ProbeOutcome::Failed,
    }
}

/// Asks `nix::unistd::getpid` for the identifier of this process. Nothing
/// is claimed of it.
#[verifier::external_body]
fn current_pid() -> (pid: u32) {
    nix::unistd::getpid().as_raw() as u32
}

/// Whether a process with this probe outcome counts as running: one that
/// may not be signalled is still a process.
pub open spec fn counts_as_alive(outcome: ProbeOutcome) -> bool {
    outcome == ProbeOutcome::Delivered || outcome == ProbeOutcome::PermissionDenied
}

/// Decides from a probe's outcome whether the process counts as running.
pub fn alive_from_probe(outcome: ProbeOutcome) -> (alive: bool)
    ensures
        alive == counts_as_alive(outcome),
{
    match outcome {
        ProbeOutcome::Delivered => true,
        ProbeOutcome::PermissionDenied => true,
        ProbeOutcome::NoSuchProcess => false,
        ProbeOutcome::Failed => false,
    }
}

/// Decides whether the process `pid` counts as running, given the
/// identifier of this process and what the probe of `pid` came to: this
/// process always does, and any other by the probe's outcome.
pub fn liveness(pid: u32, own_pid: u32, outcome: ProbeOutcome) -> (alive: bool)
    ensures
        alive == (pid == own_pid || counts_as_alive(outcome)),
{
    pid == own_pid || alive_from_probe(outcome)
}

/// Probes the process `pid` and says whether it counts as running. The
/// answer depends on the processes that run at the time of the call.
pub fn is_pid_alive(pid: u32) -> (alive: bool) {
    let own = current_pid();
    let outcome = probe_pid(pid as i32);
    liveness(pid, own, outcome)
}

/// Whether each route's process counts as running, given the identifier
/// of this process and what the probe of each route's process came to.
pub open spec fn liveness_flags(
    routes: Seq<RouteView>,
    own_pid: u32,
    outcomes: Seq<ProbeOutcome>,
) -> Seq<bool>
    recommends
        outcomes.len() == routes.len(),
{
    Seq::new(
        routes.len(),
        |i: int| routes[i].pid == own_pid || (i < outcomes.len() && counts_as_alive(outcomes[i])),
    )
}

/// Whether `kept` is what is left of `s` once each route's process was
/// probed: the routes of this process, whichever it is, and those whose
/// probe said that the process runs, whatever the probes said.
pub open spec fn is_probe_result(kept: Seq<RouteView>, s: Seq<RouteView>) -> bool {
    exists|own_pid: u32, outcomes: Seq<ProbeOutcome>|
        outcomes.len() == s.len() && kept == keep_flagged(
            s,
            liveness_flags(s, own_pid, outcomes),
        )
}

/// Says of each route whether its process counts as running, given the
/// identifier of this process and what the probe of each route's process
/// came to.
pub fn flags_from_probes(routes: &Vec<Route>, own_pid: u32, outcomes: &Vec<ProbeOutcome>) -> (flags:
    Vec<bool>)
    requires
        outcomes.len() == routes.len(),
    ensures
        flags@ == liveness_flags(route_views(routes@), own_pid, outcomes@),
{
    let mut flags: Vec<bool> = Vec::new();
    let mut i: usize = 0;
    while i < routes.len()
        invariant
            i <= routes.len() == outcomes.len(),
            flags.len() == i,
            forall|j: int|
                0 <= j < i ==> flags@[j] == (routes@[j].pid == own_pid || counts_as_alive(
                    outcomes@[j],
                )),
        decreases routes.len() - i,
    {
        flags.push(liveness(routes[i].pid, own_pid, outcomes[i]));
        i = i + 1;
    }
    assert(flags@ =~= liveness_flags(route_views(routes@), own_pid, outcomes@));
    flags
}

/// Calls `std::str::from_utf8`, which hands out `bytes` as the text that
/// they encode where they are valid UTF-8, and refuses them where they are
/// not.
#[verifier::external_body]
fn text_of<'a>(bytes: &'a [u8]) -> (text: Option<&'a str>)
    ensures
        match text {
            Some(t) => valid_utf8(bytes@) && t@ == decode_utf8(bytes@),
            None => !valid_utf8(bytes@),
        },
{
    std::str::from_utf8(bytes).ok()
}

/// The text of a registry file that is to be parsed: the content of the
/// file, where there is a file, the content is text, and the text holds
/// more than whitespace.
pub open spec fn parsable_text(content: Option<Seq<u8>>) -> Option<Seq<char>> {
    match content {
        Some(bytes) => if valid_utf8(bytes) && trim(decode_utf8(bytes)).len() > 0 {
            Some(decode_utf8(bytes))
        } else {
            None
        },
        None => None,
    }
}

/// The text to parse of a registry file with the content `content`; none
/// where the file is missing, where its content is no text, and where it
/// holds nothing but whitespace: such a file stands for no routes.
pub fn text_to_parse<'a>(content: Option<&'a [u8]>) -> (text: Option<&'a str>)
    ensures
        match text {
            Some(t) => content matches Some(bytes) && parsable_text(Some(bytes@)) == Some(t@),
            None => match content {
                Some(bytes) => parsable_text(Some(bytes@)) is None,
                None => true,
            },
        },
{
    match content {
        None => None,
        Some(bytes) => match text_of(bytes) {
            None => None,
            Some(t) => {
                if needs_parsing(Some(t)) {
                    Some(t)
                } else {
                    None
                }
            },
        },
    }
}

/// Whether a lock of this age, in milliseconds, is stale. A lock whose age
/// could not be read is not.
pub fn is_lock_stale(age_ms: Option<u128>) -> (stale: bool)
    ensures
        stale == (age_ms matches Some(ms) && ms > STALE_LOCK_THRESHOLD_MS as u128),
{
    match age_ms {
        Some(ms) => ms > STALE_LOCK_THRESHOLD_MS as u128,
        None => false,
    }
}

/// Whether a registry file with this content has to be parsed: a missing
/// file and one that holds nothing but whitespace stand for no routes.
pub fn needs_parsing(content: Option<&str>) -> (b: bool)
    ensures
        b == (content matches Some(text) && trim(text@).len() > 0),
{
    match content {
        None => false,
        Some(text) => {
            let v = chars_of(text);
            let (a, b) = trim_bounds(&v);
            a < b
        },
    }
}

/// The routes that a parse of the registry file stands for: none where
/// the content was malformed.
pub fn routes_or_empty(parsed: Option<Vec<Route>>) -> (routes: Vec<Route>)
    ensures
        routes@ == (match parsed {
            Some(v) => v@,
            None => Seq::<Route>::empty(),
        }),
{
    match parsed {
        Some(v) => v,
        None => Vec::new(),
    }
}

/// Copies of the routes of `routes`, in order.
pub fn copy_routes(routes: &[Route]) -> (out: Vec<Route>)
    ensures
        route_views(out@) == route_views(routes@),
{
    let mut out: Vec<Route> = Vec::new();
    let mut i: usize = 0;
    while i < routes.len()
        invariant
            i <= routes.len(),
            out.len() == i,
            forall|k: int| 0 <= k < i ==> out@[k]@ == routes@[k]@,
        decreases routes.len() - i,
    {
        out.push(routes[i].duplicate());
        i = i + 1;
    }
    assert(route_views(out@) =~= route_views(routes@));
    out
}

/// The routes of `routes` whose flag is set, in order.
pub fn retain_flagged(routes: &Vec<Route>, flags: &Vec<bool>) -> (out: Vec<Route>)
    requires
        routes.len() == flags.len(),
    ensures
        route_views(out@) == keep_flagged(route_views(routes@), flags@),
{
    let mut out: Vec<Route> = Vec::new();
    let mut i: usize = 0;
    let ghost all = route_views(routes@);
    while i < routes.len()
        invariant
            i <= routes.len() == flags.len(),
            all == route_views(routes@),
            route_views(out@) == keep_flagged(all.take(i as int), flags@.take(i as int)),
        decreases routes.len() - i,
    {
        let ghost before = route_views(out@);
        assert(all.take(i + 1).drop_last() =~= all.take(i as int));
        assert(flags@.take(i + 1).drop_last() =~= flags@.take(i as int));
        if flags[i] {
            out.push(routes[i].duplicate());
            assert(route_views(out@) =~= before.push(all[i as int]));
        }
        i = i + 1;
    }
    assert(all.take(routes.len() as int) =~= all);
    assert(flags@.take(flags.len() as int) =~= flags@);
    out
}

/// The routes of `routes` that are not registered under `hostname`.
pub fn drop_host(routes: &Vec<Route>, hostname: &str) -> (out: Vec<Route>)
    ensures
        route_views(out@) == without_host(route_views(routes@), hostname@),
{
    let name: String = hostname.to_owned();
    let mut out: Vec<Route> = Vec::new();
    let mut i: usize = 0;
    let ghost all = route_views(routes@);
    while i < routes.len()
        invariant
            i <= routes.len(),
            name@ == hostname@,
            all == route_views(routes@),
            route_views(out@) == without_host(all.take(i as int), hostname@),
        decreases routes.len() - i,
    {
        let ghost before = route_views(out@);
        assert(all.take(i + 1).drop_last() =~= all.take(i as int));
        if routes[i].hostname != name {
            out.push(routes[i].duplicate());
            assert(route_views(out@) =~= before.push(all[i as int]));
        }
        i = i + 1;
    }
    assert(all.take(routes.len() as int) =~= all);
    out
}

/// The registry of one state directory: the routes that its file holds.
pub struct RouteStore {
    state_dir: String,
    routes: Vec<Route>,
}

impl RouteStore {
    /// The routes that the registry holds, in order.
    pub closed spec fn entries(&self) -> Seq<RouteView> {
        route_views(self.routes@)
    }

    /// The state directory.
    pub closed spec fn dir(&self) -> Seq<char> {
        self.state_dir@
    }

    /// Whether the registry holds at most one route per hostname. An empty
    /// registry does, and loading, adding and removing keep it so.
    pub open spec fn wf(&self) -> bool {
        unique_hosts(self.entries())
    }

    /// An empty registry for the state directory `state_dir`.
    pub fn new(state_dir: String) -> (store: RouteStore)
        ensures
            store.dir() == state_dir@,
            store.entries() == Seq::<RouteView>::empty(),
            store.wf(),
    {
        let store = RouteStore { state_dir, routes: Vec::new() };
        assert(store.entries() =~= Seq::<RouteView>::empty());
        store
    }

    /// The state directory.
    pub fn state_dir(&self) -> (dir: &str)
        ensures
            dir@ == self.dir(),
    {
        self.state_dir.as_str()
    }

    /// The path of the file that holds the routes.
    pub fn routes_path(&self) -> (path: String)
        ensures
            path@ == join_path(self.dir(), "routes.json"@),
    {
        path_join(self.state_dir.as_str(), "routes.json")
    }

    /// The path of the directory whose existence is the lock.
    pub fn lock_path(&self) -> (path: String)
        ensures
            path@ == join_path(self.dir(), "routes.lock"@),
    {
        path_join(self.state_dir.as_str(), "routes.lock")
    }

    /// Probes the process of each route.
    fn probe_all(&self) -> (outcomes: Vec<ProbeOutcome>)
        ensures
            outcomes.len() == self.entries().len(),
    {
        let mut outcomes: Vec<ProbeOutcome> = Vec::new();
        let mut i: usize = 0;
        while i < self.routes.len()
            invariant
                i <= self.routes.len(),
                outcomes.len() == i,
            decreases self.routes.len() - i,
        {
            outcomes.push(probe_pid(self.routes[i].pid as i32));
            i = i + 1;
        }
        outcomes
    }

    /// The routes whose process was found running when this call asked.
    /// With `persist_cleanup` the registry keeps only those; without it the
    /// registry is unchanged.
    pub fn load(&mut self, persist_cleanup: bool) -> (alive: Vec<Route>)
        ensures
            is_probe_result(route_views(alive@), old(self).entries()),
            is_selection(route_views(alive@), old(self).entries()),
            unique_hosts(old(self).entries()) ==> unique_hosts(route_views(alive@)),
            old(self).wf() ==> final(self).wf(),
            final(self).dir() == old(self).dir(),
            final(self).entries() == (if persist_cleanup {
                route_views(alive@)
            } else {
                old(self).entries()
            }),
    {
        let own = current_pid();
        let outcomes = self.probe_all();
        let flags = flags_from_probes(&self.routes, own, &outcomes);
        let alive = retain_flagged(&self.routes, &flags);
        proof {
            lemma_keep_flagged(old(self).entries(), flags@);
        }
        if persist_cleanup {
            self.routes = copy_routes(alive.as_slice());
        }
        alive
    }

    /// Takes in what a parse of the registry file gave, `None` where there
    /// was nothing to parse or the text was malformed, and loads: a file
    /// that could not be read stands for no routes, and nothing is to be
    /// written back for it. What comes back is the routes whose process was
    /// found running, and whether the registry is to be written back.
    pub fn load_from(&mut self, parsed: Option<Vec<Route>>, persist_cleanup: bool) -> (loaded: (
        Vec<Route>,
        bool,
    ))
        ensures
            final(self).dir() == old(self).dir(),
            match parsed {
                None => {
                    &&& loaded.0@.len() == 0
                    &&& !loaded.1
                    &&& final(self).entries() == Seq::<RouteView>::empty()
                },
                Some(routes) => {
                    &&& is_probe_result(route_views(loaded.0@), route_views(routes@))
                    &&& loaded.1 == persist_cleanup
                    &&& final(self).entries() == (if persist_cleanup {
                        route_views(loaded.0@)
                    } else {
                        route_views(routes@)
                    })
                },
            },
    {
        let readable = parsed.is_some();
        let routes = routes_or_empty(parsed);
        self.save(routes.as_slice());
        if readable {
            let alive = self.load(persist_cleanup);
            (alive, persist_cleanup)
        } else {
            assert(self.entries() =~= Seq::<RouteView>::empty());
            (Vec::new(), false)
        }
    }

    /// All routes of the registry, whether their process runs or not.
    pub fn load_raw(&self) -> (routes: Vec<Route>)
        ensures
            route_views(routes@) == self.entries(),
    {
        copy_routes(self.routes.as_slice())
    }

    /// Replaces the routes of the registry by `routes`.
    pub fn save(&mut self, routes: &[Route])
        ensures
            final(self).dir() == old(self).dir(),
            final(self).entries() == route_views(routes@),
    {
        self.routes = copy_routes(routes);
    }

    /// Registers `route`: the routes whose process is gone are dropped,
    /// what was registered under the hostname of `route` is replaced, and
    /// `route` stands last.
    pub fn add(&mut self, route: Route)
        ensures
            final(self).dir() == old(self).dir(),
            exists|kept: Seq<RouteView>|
                is_probe_result(kept, old(self).entries()) && is_selection(
                    kept,
                    old(self).entries(),
                ) && final(self).entries() == with_route(kept, route@),
            final(self).entries().last() == route@,
            old(self).wf() ==> final(self).wf(),
    {
        let alive = self.load(true);
        let ghost kept = route_views(alive@);
        let mut routes = drop_host(&alive, route.hostname.as_str());
        let ghost before = route_views(routes@);
        let ghost added = route@;
        routes.push(route);
        assert(route_views(routes@) =~= before.push(added));
        self.routes = routes;
        assert(final(self).entries() == with_route(kept, added));
        proof {
            lemma_with_route(kept, added);
        }
    }

    /// Removes what is registered under `hostname`, and the routes whose
    /// process is gone.
    pub fn remove(&mut self, hostname: &str)
        ensures
            final(self).dir() == old(self).dir(),
            exists|kept: Seq<RouteView>|
                is_probe_result(kept, old(self).entries()) && is_selection(
                    kept,
                    old(self).entries(),
                ) && final(self).entries() == without_host(kept, hostname@),
            forall|k: int|
                0 <= k < final(self).entries().len() ==> (#[trigger] final(self).entries()[k]).hostname
                    != hostname@,
            old(self).wf() ==> final(self).wf(),
    {
        let alive = self.load(true);
        let ghost kept = route_views(alive@);
        self.routes = drop_host(&alive, hostname);
        assert(final(self).entries() == without_host(kept, hostname@));
        proof {
            lemma_without_host(kept, hostname@);
        }
    }
}

/// What one try to create the lock directory came to.
#[derive(Debug, Clone, Copy, PartialEq, Eq, Structural)]
pub enum LockEvent {
    /// The directory was created: the lock is taken.
    Created,
    /// The directory could not be created; `stale` says whether it is
    /// there and older than the threshold.
    Held { stale: bool },
}

/// What a contender for the lock does next.
#[derive(Debug, Clone, Copy, PartialEq, Eq, Structural)]
pub enum LockStep {
    /// Enter the critical section.
    Acquired,
    /// Remove the lock directory and try again at once.
    BreakStale,
    /// Sleep for the retry delay and try again.
    Wait,
    /// Stop: the lock is contended.
    GiveUp,
}

/// The tries that a contender has used, and the step it takes, after
/// `event` came in with `used` tries used before. Breaking a stale lock
/// uses no try.
pub open spec fn lock_step_spec(used: nat, event: LockEvent) -> (nat, LockStep) {
    match event {
        LockEvent::Created => (used, LockStep::Acquired),
        LockEvent::Held { stale: true } => (used, LockStep::BreakStale),
        LockEvent::Held { stale: false } => if used + 1 < LOCK_MAX_RETRIES {
            (used + 1, LockStep::Wait)
        } else {
            (LOCK_MAX_RETRIES as nat, LockStep::GiveUp)
        },
    }
}

/// One contender's progress towards the lock.
pub struct LockAttempt {
    used: u32,
}

impl LockAttempt {
    /// The tries used so far.
    pub closed spec fn used(&self) -> nat {
        self.used as nat
    }

    /// A contender that has not tried yet.
    pub fn new() -> (attempt: LockAttempt)
        ensures
            attempt.used() == 0,
    {
        LockAttempt { used: 0 }
    }

    /// Takes in what the last try came to and says what to do next.
    pub fn step(&mut self, event: LockEvent) -> (next: LockStep)
        ensures
            (final(self).used(), next) == lock_step_spec(old(self).used(), event),
    {
        match event {
            LockEvent::Created => LockStep::Acquired,
            LockEvent::Held { stale } => {
                if stale {
                    LockStep::BreakStale
                } else if self.used < LOCK_MAX_RETRIES - 1 {
                    self.used = self.used + 1;
                    LockStep::Wait
                } else {
                    self.used = LOCK_MAX_RETRIES;
                    LockStep::GiveUp
                }
            },
        }
    }
}

/// The tries used after the events of `events` came in, starting with
/// `used`.
pub open spec fn used_after(used: nat, events: Seq<LockEvent>) -> nat
    decreases events.len(),
{
    if events.len() == 0 {
        used
    } else {
        lock_step_spec(used_after(used, events.drop_last()), events.last()).0
    }
}

/// How many events of `events` are a held lock that is not stale.
pub open spec fn contended(events: Seq<LockEvent>) -> nat
    decreases events.len(),
{
    if events.len() == 0 {
        0
    } else if events.last() == (LockEvent::Held { stale: false }) {
        contended(events.drop_last()) + 1
    } else {
        contended(events.drop_last())
    }
}

/// A fresh contender has used one try for each time it found the lock held
/// and not stale, and never more than the budget: a stale lock that it
/// broke has cost it nothing.
pub proof fn lemma_lock_budget(events: Seq<LockEvent>)
    ensures
        used_after(0, events) == if contended(events) < LOCK_MAX_RETRIES {
            contended(events)
        } else {
            LOCK_MAX_RETRIES as nat
        },
    decreases events.len(),
{
    if events.len() > 0 {
        lemma_lock_budget(events.drop_last());
    }
}

/// The text of the error that a contender who gave up reports.
pub fn lock_contention_message() -> (m: String)
    ensures
        m@ == "Failed to acquire route lock after "@ + decimal(LOCK_MAX_RETRIES as nat)
            + " retries"@,
{
    let mut out: Vec<char> = Vec::new();
    push_str(&mut out, "Failed to acquire route lock after ");
    push_decimal(&mut out, LOCK_MAX_RETRIES);
    push_str(&mut out, " retries");
    string_of(&out)
}

} // verus!
