//! The dynamic-programming segmenter.
//!
//! Over a byte span of length `len`, every reported token occurrence is
//! an edge from its start offset to its end offset, weighted by the
//! token's log-probability score.  The deterministic pass keeps, per
//! offset, the best score over all paths from offset 0 together with the
//! edge that achieved it; a backtrace from `len` then yields the
//! maximum-score segmentation.  The sampled pass replays externally
//! drawn accept/reject decisions over the same edges; whatever the
//! decisions, its backtrace yields some valid segmentation.

use vstd::prelude::*;

use crate::error::Error;
use crate::matcher::MatchSpan;
use crate::matcher::matches_end_sorted;
use crate::vocab::SCORE_MIN;

verus! {

/// Every match spans a non-empty range inside `[0, len)`.
pub open spec fn matches_span_ok(ms: Seq<MatchSpan>, len: int) -> bool {
    forall|i: int|
        0 <= i < ms.len() ==> ((#[trigger] ms[i]).start < ms[i].end && ms[i].end <= len)
}

/// Every match additionally names a scored pattern.
pub open spec fn matches_in_bounds(ms: Seq<MatchSpan>, len: int, n_pats: int) -> bool {
    &&& matches_span_ok(ms, len)
    &&& forall|i: int| 0 <= i < ms.len() ==> (#[trigger] ms[i]).pid < n_pats
}

/// Every weight is a representable log-probability.
pub open spec fn weights_in_range(w: Seq<i64>) -> bool {
    forall|p: int| 0 <= p < w.len() ==> SCORE_MIN <= #[trigger] w[p] <= 0
}

/// Offset scores before any match is processed: only offset 0 is
/// reachable, at score 0.
pub open spec fn init_scores(len: int) -> Seq<Option<int>> {
    Seq::new((len + 1) as nat, |i: int| if i == 0 { Some(0int) } else { None })
}

/// Routes before any match is processed: none.
pub open spec fn init_routes(len: int) -> Seq<Option<MatchSpan>> {
    Seq::new((len + 1) as nat, |i: int| None)
}

/// The deterministic pass accepts a match when its start is reachable
/// and the resulting score strictly beats the best known at its end;
/// the first edge to reach a score therefore wins ties.
pub open spec fn accepts(sc: Seq<Option<int>>, m: MatchSpan, w: Seq<i64>) -> bool {
    let at_start = sc[m.start as int];
    let at_end = sc[m.end as int];
    &&& at_start is Some
    &&& (at_end is None || at_start->0 + w[m.pid as int] > at_end->0)
}

/// One deterministic score update.
pub open spec fn step_scores(sc: Seq<Option<int>>, m: MatchSpan, w: Seq<i64>) -> Seq<
    Option<int>,
> {
    if accepts(sc, m, w) {
        sc.update(m.end as int, Some(sc[m.start as int]->0 + w[m.pid as int]))
    } else {
        sc
    }
}

/// One deterministic route update.
pub open spec fn step_routes(
    rt: Seq<Option<MatchSpan>>,
    sc: Seq<Option<int>>,
    m: MatchSpan,
    w: Seq<i64>,
) -> Seq<Option<MatchSpan>> {
    if accepts(sc, m, w) {
        rt.update(m.end as int, Some(m))
    } else {
        rt
    }
}

/// Offset scores after the first `k` matches are processed.
pub open spec fn dp_scores(ms: Seq<MatchSpan>, w: Seq<i64>, len: int, k: int) -> Seq<
    Option<int>,
>
    decreases k,
{
    if k <= 0 {
        init_scores(len)
    } else {
        step_scores(dp_scores(ms, w, len, k - 1), ms[k - 1], w)
    }
}

/// Chosen routes after the first `k` matches are processed.
pub open spec fn dp_routes(ms: Seq<MatchSpan>, w: Seq<i64>, len: int, k: int) -> Seq<
    Option<MatchSpan>,
>
    decreases k,
{
    if k <= 0 {
        init_routes(len)
    } else {
        step_routes(
            dp_routes(ms, w, len, k - 1),
            dp_scores(ms, w, len, k - 1),
            ms[k - 1],
            w,
        )
    }
}

/// Routes form well-founded chains: a route at `e` ends at `e`, starts
/// strictly earlier, and starts somewhere routed (or at 0).
pub open spec fn routes_chain(rt: Seq<Option<MatchSpan>>, len: int) -> bool {
    forall|e: int|
        1 <= e <= len && (#[trigger] rt[e]) is Some ==> (rt[e]->0.end == e && rt[e]->0.start < e
            && (rt[e]->0.start > 0 ==> rt[rt[e]->0.start as int] is Some))
}

/// Every routed edge is one of the reported matches.
pub open spec fn routes_members(rt: Seq<Option<MatchSpan>>, ms: Seq<MatchSpan>, len: int) -> bool {
    forall|e: int| 1 <= e <= len && (#[trigger] rt[e]) is Some ==> ms.contains(rt[e]->0)
}

/// The segmentation read off the routes, walking back from `e`.
pub open spec fn bt(rt: Seq<Option<MatchSpan>>, e: int, fuel: nat) -> Seq<MatchSpan>
    decreases fuel,
{
    if e <= 0 || fuel == 0 {
        Seq::empty()
    } else if rt[e] is Some {
        bt(rt, rt[e]->0.start as int, (fuel - 1) as nat).push(rt[e]->0)
    } else {
        Seq::empty()
    }
}

/// `path` is a segmentation of `[0, e)` into matches: edges chain from
/// offset 0 to offset `e`, each drawn from the reported matches.
pub open spec fn path_ok(ms: Seq<MatchSpan>, e: int, path: Seq<MatchSpan>) -> bool {
    &&& forall|i: int| 0 <= i < path.len() ==> ms.contains(#[trigger] path[i])
    &&& forall|i: int|
        0 <= i < path.len() - 1 ==> (#[trigger] path[i]).end == path[i + 1].start
    &&& if path.len() == 0 {
        e == 0
    } else {
        path[0].start == 0 && path[path.len() - 1].end == e
    }
}

/// The total score of a segmentation.
pub open spec fn path_weight(path: Seq<MatchSpan>, w: Seq<i64>) -> int
    decreases path.len(),
{
    if path.len() == 0 {
        0
    } else {
        path_weight(path.drop_last(), w) + w[path.last().pid as int]
    }
}

/// Lifts machine scores to the mathematical ones.
pub open spec fn lift_opt(o: Option<i128>) -> Option<int> {
    match o {
        Some(v) => Some(v as int),
        None => None,
    }
}

/// With more fuel than `e`, the backtrace no longer depends on the fuel.
proof fn lemma_bt_fuel(rt: Seq<Option<MatchSpan>>, len: int, e: int, fuel: nat)
    requires
        routes_chain(rt, len),
        0 <= e <= len,
        fuel >= e,
    ensures
        bt(rt, e, fuel) =~= bt(rt, e, e as nat),
    decreases e,
{
    if e > 0 && rt[e] is Some {
        let s = rt[e]->0.start as int;
        lemma_bt_fuel(rt, len, s, (fuel - 1) as nat);
        lemma_bt_fuel(rt, len, s, s as nat);
        lemma_bt_fuel(rt, len, s, (e - 1) as nat);
    }
}

/// A backtrace over well-formed routes is a valid segmentation.
pub proof fn lemma_bt_path_ok(
    rt: Seq<Option<MatchSpan>>,
    ms: Seq<MatchSpan>,
    len: int,
    e: int,
)
    requires
        routes_chain(rt, len),
        routes_members(rt, ms, len),
        0 <= e <= len,
        e > 0 ==> rt[e] is Some,
    ensures
        path_ok(ms, e, bt(rt, e, e as nat)),
    decreases e,
{
    if e > 0 {
        let m = rt[e]->0;
        let s = m.start as int;
        lemma_bt_fuel(rt, len, s, (e - 1) as nat);
        if s > 0 {
            lemma_bt_path_ok(rt, ms, len, s);
        } else {
            assert(bt(rt, 0, 0) =~= Seq::<MatchSpan>::empty());
        }
        let sub = bt(rt, s, s as nat);
        let path = bt(rt, e, e as nat);
        assert(path =~= sub.push(m));
        assert(path_ok(ms, s, sub));
        assert forall|i: int| 0 <= i < path.len() implies ms.contains(#[trigger] path[i]) by {
            if i < path.len() - 1 {
                assert(path[i] == sub[i]);
            } else {
                assert(path[i] == m);
            }
        }
        assert forall|i: int|
            0 <= i < path.len() - 1 implies (#[trigger] path[i]).end == path[i + 1].start by {
            if i < sub.len() - 1 {
                assert(path[i] == sub[i] && path[i + 1] == sub[i + 1]);
            } else if sub.len() > 0 {
                assert(path[i] == sub.last() && path[i + 1] == m);
                assert(sub[sub.len() - 1].end == s);
            }
        }
    }
}

/// The deterministic pass over one span: processes every match in
/// order, then reads the best segmentation off the routes.  Fails with
/// `UnsegmentableInputError` exactly when no match chain reaches the end
/// of the span.
pub fn viterbi_decode(len: usize, ms: &Vec<MatchSpan>, w: &Vec<i64>) -> (r: Result<
    Vec<MatchSpan>,
    Error,
>)
    requires
        matches_in_bounds(ms@, len as int, w@.len() as int),
        matches_end_sorted(ms@),
        weights_in_range(w@),
    ensures
        r is Ok <==> dp_scores(ms@, w@, len as int, ms@.len() as int)[len as int] is Some,
        r matches Ok(path) ==> path@ == bt(
            dp_routes(ms@, w@, len as int, ms@.len() as int),
            len as int,
            len as nat,
        ),
        r matches Ok(path) ==> path_ok(ms@, len as int, path@) && path_weight(path@, w@)
            == dp_scores(ms@, w@, len as int, ms@.len() as int)[len as int]->0,
        r matches Err(e) ==> e == Error::UnsegmentableInputError,
{
    let n = ms.len();
    let mut scores: Vec<Option<i128>> = Vec::new();
    let mut routes: Vec<Option<MatchSpan>> = Vec::new();
    scores.push(Some(0));
    routes.push(None);
    let mut i: usize = 0;
    while i < len
        invariant
            i <= len,
            scores@.len() == i + 1,
            routes@.len() == i + 1,
            scores@.map_values(|o: Option<i128>| lift_opt(o)) =~= init_scores(len as int).take(
                i + 1,
            ),
            routes@ =~= init_routes(len as int).take(i + 1),
        decreases len - i,
    {
        scores.push(None);
        routes.push(None);
        i = i + 1;
    }
    proof {
        assert(scores@.map_values(|o: Option<i128>| lift_opt(o)) =~= init_scores(len as int));
        assert(routes@ =~= init_routes(len as int));
        assert forall|e: int|
            0 <= e <= len && (#[trigger] scores@[e]) is Some implies SCORE_MIN * e
            <= scores@[e]->0 <= 0 by {
            assert(lift_opt(scores@[e]) == init_scores(len as int)[e]);
            assert(e == 0);
            assert(scores@[0]->0 as int == 0);
        }
    }
    let mut k: usize = 0;
    while k < n
        invariant
            k <= n,
            n == ms@.len(),
            matches_in_bounds(ms@, len as int, w@.len() as int),
            weights_in_range(w@),
            scores@.len() == len + 1,
            routes@.len() == len + 1,
            scores@.map_values(|o: Option<i128>| lift_opt(o)) =~= dp_scores(
                ms@,
                w@,
                len as int,
                k as int,
            ),
            routes@ =~= dp_routes(ms@, w@, len as int, k as int),
            forall|e: int|
                0 <= e <= len && (#[trigger] scores@[e]) is Some ==> SCORE_MIN * e
                    <= scores@[e]->0 <= 0,
        decreases n - k,
    {
        let ghost sc0 = scores@.map_values(|o: Option<i128>| lift_opt(o));
        let ghost rt0 = routes@;
        let m = ms[k];
        match scores[m.start] {
            Some(ss) => {
                proof {
                    assert(SCORE_MIN * (m.start as int) <= ss <= 0);
                    assert(SCORE_MIN * (m.start as int + 1) == SCORE_MIN * (m.start as int)
                        + SCORE_MIN) by (nonlinear_arith);
                    assert(SCORE_MIN * (m.end as int) <= SCORE_MIN * (m.start as int + 1)) by (
                    nonlinear_arith)
                        requires
                            m.start as int + 1 <= m.end as int,
                    ;
                }
                let cand: i128 = ss + (w[m.pid] as i128);
                let better = match scores[m.end] {
                    Some(se) => cand > se,
                    None => true,
                };
                if better {
                    scores[m.end] = Some(cand);
                    routes[m.end] = Some(m);
                }
                proof {
                    assert(accepts(sc0, m, w@) == better);
                    assert(scores@.map_values(|o: Option<i128>| lift_opt(o)) =~= step_scores(
                        sc0,
                        m,
                        w@,
                    ));
                    assert(routes@ =~= step_routes(rt0, sc0, m, w@));
                }
            },
            None => {
                proof {
                    assert(!accepts(sc0, m, w@));
                    assert(scores@.map_values(|o: Option<i128>| lift_opt(o)) =~= step_scores(
                        sc0,
                        m,
                        w@,
                    ));
                    assert(routes@ =~= step_routes(rt0, sc0, m, w@));
                }
            },
        }
        k = k + 1;
    }
    proof {
        lemma_dp_routes_chain(ms@, w@, len as int, n as int);
        if dp_scores(ms@, w@, len as int, n as int)[len as int] is Some {
            lemma_bt_path_ok(routes@, ms@, len as int, len as int);
            lemma_bt_weight(ms@, w@, len as int, len as int);
        }
    }
    backtrace(len, &routes)
}

/// After any number of steps, the deterministic routes form well-founded
/// chains of reported matches, and an offset is routed exactly when it
/// is reachable (scored).
pub proof fn lemma_dp_routes_chain(ms: Seq<MatchSpan>, w: Seq<i64>, len: int, k: int)
    requires
        0 <= len,
        matches_span_ok(ms, len),
        0 <= k <= ms.len(),
    ensures
        routes_chain(dp_routes(ms, w, len, k), len),
        routes_members(dp_routes(ms, w, len, k), ms, len),
        dp_routes(ms, w, len, k).len() == len + 1,
        dp_scores(ms, w, len, k).len() == len + 1,
        forall|e: int|
            1 <= e <= len ==> ((#[trigger] dp_routes(ms, w, len, k)[e]) is Some <==> dp_scores(
                ms,
                w,
                len,
                k,
            )[e] is Some),
        dp_scores(ms, w, len, k)[0] == Some(0int),
    decreases k,
{
    if k > 0 {
        lemma_dp_routes_chain(ms, w, len, k - 1);
        let sc = dp_scores(ms, w, len, k - 1);
        let rt = dp_routes(ms, w, len, k - 1);
        let m = ms[k - 1];
        assert(ms.contains(m));
        let sc1 = dp_scores(ms, w, len, k);
        let rt1 = dp_routes(ms, w, len, k);
        if accepts(sc, m, w) {
            assert forall|e: int|
                1 <= e <= len && (#[trigger] rt1[e]) is Some implies (rt1[e]->0.end == e
                && rt1[e]->0.start < e && (rt1[e]->0.start > 0 ==> rt1[rt1[e]->0.start as int]
                is Some) && ms.contains(rt1[e]->0)) by {
                if e == m.end as int {
                    assert(rt1[e]->0 == m);
                } else {
                    assert(rt1[e] == rt[e]);
                }
            }
        }
    }
}

/// Read the segmentation off the routes, back from the end of the span.
fn backtrace(len: usize, routes: &Vec<Option<MatchSpan>>) -> (r: Result<Vec<MatchSpan>, Error>)
    requires
        routes@.len() == len + 1,
        routes_chain(routes@, len as int),
    ensures
        r is Ok <==> (len == 0 || routes@[len as int] is Some),
        r matches Ok(path) ==> path@ == bt(routes@, len as int, len as nat),
        r matches Err(e) ==> e == Error::UnsegmentableInputError,
{
    if len == 0 {
        return Ok(Vec::new());
    }
    let is_routed = match routes[len] {
        Some(_) => true,
        None => false,
    };
    if !is_routed {
        return Err(Error::UnsegmentableInputError);
    }
    let mut rev: Vec<MatchSpan> = Vec::new();
    let mut e: usize = len;
    while e > 0
        invariant
            routes@.len() == len + 1,
            routes_chain(routes@, len as int),
            e <= len,
            e > 0 ==> routes@[e as int] is Some,
            bt(routes@, len as int, len as nat) =~= bt(routes@, e as int, e as nat)
                + rev@.reverse(),
        decreases e,
    {
        let m = match routes[e] {
            Some(m) => m,
            None => {
                proof {
                    assert(false);
                }
                return Err(Error::UnsegmentableInputError);
            },
        };
        proof {
            lemma_bt_fuel(routes@, len as int, m.start as int, (e - 1) as nat);
            assert(bt(routes@, e as int, e as nat) =~= bt(
                routes@,
                m.start as int,
                m.start as nat,
            ).push(m));
            assert((bt(routes@, m.start as int, m.start as nat).push(m)) + rev@.reverse() =~= bt(
                routes@,
                m.start as int,
                m.start as nat,
            ) + rev@.push(m).reverse());
        }
        rev.push(m);
        e = m.start;
    }
    let mut path: Vec<MatchSpan> = Vec::new();
    let n = rev.len();
    let mut i: usize = 0;
    while i < n
        invariant
            i <= n,
            n == rev@.len(),
            path@ =~= rev@.reverse().take(i as int),
        decreases n - i,
    {
        path.push(rev[n - 1 - i]);
        i = i + 1;
    }
    proof {
        assert(path@ =~= rev@.reverse());
        assert(bt(routes@, 0, 0) =~= Seq::<MatchSpan>::empty());
        assert(path@ =~= bt(routes@, len as int, len as nat));
    }
    Ok(path)
}

/// The sampled pass over one span: processes every match in order and
/// replays the given accept decisions, guarding them so that only
/// reachable starts are ever routed.  Whatever the decisions, a
/// successful result is a valid segmentation; it fails exactly when the
/// deterministic pass would.
pub fn viterbi_sample(len: usize, ms: &Vec<MatchSpan>, choices: &Vec<bool>) -> (r: Result<
    Vec<MatchSpan>,
    Error,
>)
    requires
        matches_span_ok(ms@, len as int),
    ensures
        r matches Ok(path) ==> path_ok(ms@, len as int, path@),
        r matches Err(e) ==> e == Error::UnsegmentableInputError,
        r is Ok <==> reach(ms@, len as int, ms@.len() as int)[len as int],
{
    let n = ms.len();
    let mut routes: Vec<Option<MatchSpan>> = Vec::new();
    routes.push(None);
    let mut i: usize = 0;
    while i < len
        invariant
            i <= len,
            routes@.len() == i + 1,
            forall|e: int| 0 <= e <= i ==> (#[trigger] routes@[e]) is None,
        decreases len - i,
    {
        routes.push(None);
        i = i + 1;
    }
    let mut k: usize = 0;
    while k < n
        invariant
            k <= n,
            n == ms@.len(),
            matches_span_ok(ms@, len as int),
            routes@.len() == len + 1,
            routes_chain(routes@, len as int),
            routes_members(routes@, ms@, len as int),
            forall|e: int|
                1 <= e <= len ==> ((#[trigger] routes@[e]) is Some <==> reach(
                    ms@,
                    len as int,
                    k as int,
                )[e]),
        decreases n - k,
    {
        let ghost rt0 = routes@;
        let m = ms[k];
        let start_ok = if m.start == 0 {
            true
        } else {
            match routes[m.start] {
                Some(_) => true,
                None => false,
            }
        };
        if start_ok {
            let take = match routes[m.end] {
                Some(_) => k < choices.len() && choices[k],
                None => true,
            };
            if take {
                routes[m.end] = Some(m);
            }
        }
        proof {
            assert(ms@.contains(m));
            lemma_reach_props(ms@, len as int, k as int);
            lemma_reach_props(ms@, len as int, k as int + 1);
            assert forall|e: int|
                1 <= e <= len implies ((#[trigger] routes@[e]) is Some <==> reach(
                    ms@,
                    len as int,
                    k as int + 1,
                )[e]) by {
                assert(reach(ms@, len as int, k as int + 1) == step_reach(
                    reach(ms@, len as int, k as int),
                    ms@[k as int],
                ));
                if e != m.end as int {
                    assert(routes@[e] == rt0[e]);
                }
            }
        }
        k = k + 1;
    }
    proof {
        lemma_reach_props(ms@, len as int, n as int);
    }
    backtrace_checked(len, ms, &routes)
}

/// Which offsets are reachable by match chains from offset 0, after the
/// first `k` matches are processed.  Independent of scores and accept
/// decisions: the first edge into an offset always routes it.
pub open spec fn reach(ms: Seq<MatchSpan>, len: int, k: int) -> Seq<bool>
    decreases k,
{
    if k <= 0 {
        Seq::new((len + 1) as nat, |i: int| i == 0)
    } else {
        step_reach(reach(ms, len, k - 1), ms[k - 1])
    }
}

/// One reachability update.
pub open spec fn step_reach(rc: Seq<bool>, m: MatchSpan) -> Seq<bool> {
    if rc[m.start as int] {
        rc.update(m.end as int, true)
    } else {
        rc
    }
}

/// An offset is reachable exactly when the deterministic pass scores
/// it: the sampled and deterministic passes fail on the same spans.
pub proof fn lemma_reach_scores(ms: Seq<MatchSpan>, w: Seq<i64>, len: int, k: int)
    requires
        0 <= len,
        matches_span_ok(ms, len),
        0 <= k <= ms.len(),
    ensures
        forall|e: int|
            0 <= e <= len ==> (reach(ms, len, k)[e] <==> (#[trigger] dp_scores(ms, w, len, k)[e])
                is Some),
    decreases k,
{
    lemma_dp_len(ms, w, len, k);
    lemma_reach_props(ms, len, k);
    if k > 0 {
        lemma_reach_scores(ms, w, len, k - 1);
        lemma_dp_len(ms, w, len, k - 1);
        lemma_reach_props(ms, len, k - 1);
        let sc = dp_scores(ms, w, len, k - 1);
        let rc = reach(ms, len, k - 1);
        let m = ms[k - 1];
        assert(0 <= k - 1 < ms.len());
        assert(m.start < m.end && m.end <= len);
        assert(dp_scores(ms, w, len, k) == step_scores(sc, m, w));
        assert(reach(ms, len, k) == step_reach(rc, m));
        assert forall|e: int|
            0 <= e <= len implies (reach(ms, len, k)[e] <==> (#[trigger] dp_scores(
            ms,
            w,
            len,
            k,
        )[e]) is Some) by {
            if e == m.end as int {
                assert(rc[m.start as int] <==> sc[m.start as int] is Some);
            } else {
                assert(reach(ms, len, k)[e] == rc[e]);
                assert(dp_scores(ms, w, len, k)[e] == sc[e]);
            }
        }
    }
}

/// Reachability always covers the whole span and offset 0 stays
/// reachable.
pub proof fn lemma_reach_props(ms: Seq<MatchSpan>, len: int, k: int)
    requires
        0 <= len,
        matches_span_ok(ms, len),
        0 <= k <= ms.len(),
    ensures
        reach(ms, len, k).len() == len + 1,
        reach(ms, len, k)[0],
    decreases k,
{
    if k > 0 {
        lemma_reach_props(ms, len, k - 1);
        assert(0 <= k - 1 < ms.len());
        assert(ms[k - 1].end >= 1);
    }
}

/// Backtrace plus the segmentation-validity argument, shared by the
/// sampled pass.
fn backtrace_checked(len: usize, ms: &Vec<MatchSpan>, routes: &Vec<Option<MatchSpan>>) -> (r:
    Result<Vec<MatchSpan>, Error>)
    requires
        routes@.len() == len + 1,
        routes_chain(routes@, len as int),
        routes_members(routes@, ms@, len as int),
    ensures
        r is Ok <==> (len == 0 || routes@[len as int] is Some),
        r matches Ok(path) ==> path_ok(ms@, len as int, path@) && path@ == bt(
            routes@,
            len as int,
            len as nat,
        ),
        r matches Err(e) ==> e == Error::UnsegmentableInputError,
{
    let r = backtrace(len, routes);
    proof {
        if len == 0 || routes@[len as int] is Some {
            lemma_bt_path_ok(routes@, ms@, len as int, len as int);
        }
    }
    r
}


/// The score and route tables always cover the whole span.
proof fn lemma_dp_len(ms: Seq<MatchSpan>, w: Seq<i64>, len: int, k: int)
    requires
        0 <= len,
        matches_span_ok(ms, len),
        k <= ms.len(),
    ensures
        dp_scores(ms, w, len, k).len() == len + 1,
        dp_routes(ms, w, len, k).len() == len + 1,
    decreases k,
{
    if k <= 0 {
        assert(dp_scores(ms, w, len, k) == init_scores(len));
        assert(init_scores(len).len() == len + 1);
        assert(dp_routes(ms, w, len, k) == init_routes(len));
        assert(init_routes(len).len() == len + 1);
    } else {
        lemma_dp_len(ms, w, len, k - 1);
        let sc = dp_scores(ms, w, len, k - 1);
        let rt = dp_routes(ms, w, len, k - 1);
        let m = ms[k - 1];
        assert(0 <= k - 1 < ms.len());
        assert(m.start < m.end && m.end <= len);
        assert(dp_scores(ms, w, len, k) == step_scores(sc, m, w));
        assert(dp_routes(ms, w, len, k) == step_routes(rt, sc, m, w));
    }
}

/// Scores never get worse as more matches are processed.
proof fn lemma_dp_scores_monotone(ms: Seq<MatchSpan>, w: Seq<i64>, len: int, k1: int, k2: int)
    requires
        0 <= len,
        matches_span_ok(ms, len),
        0 <= k1 <= k2 <= ms.len(),
    ensures
        forall|e: int|
            0 <= e <= len && (#[trigger] dp_scores(ms, w, len, k1)[e]) is Some ==> (dp_scores(
                ms,
                w,
                len,
                k2,
            )[e] is Some && dp_scores(ms, w, len, k2)[e]->0 >= dp_scores(ms, w, len, k1)[e]->0),
    decreases k2 - k1,
{
    if k2 > k1 {
        lemma_dp_scores_monotone(ms, w, len, k1, k2 - 1);
        lemma_dp_len(ms, w, len, k2 - 1);
        lemma_dp_len(ms, w, len, k2);
        let sc = dp_scores(ms, w, len, k2 - 1);
        let m = ms[k2 - 1];
        assert(0 <= k2 - 1 < ms.len());
        assert(ms[k2 - 1].start < ms[k2 - 1].end && ms[k2 - 1].end <= len);
        let sc1 = dp_scores(ms, w, len, k2);
        assert(sc1 == step_scores(sc, m, w));
        assert forall|e: int|
            0 <= e <= len && (#[trigger] sc[e]) is Some implies (sc1[e] is Some && sc1[e]->0
            >= sc[e]->0) by {
            if accepts(sc, m, w) && e == m.end {
                assert(sc1[e] == Some(sc[m.start as int]->0 + w[m.pid as int]));
            } else {
                assert(sc1[e] == sc[e]);
            }
        }
    }
}

/// A score at an offset earlier than every still unprocessed match end
/// is already final.
proof fn lemma_dp_scores_stable(
    ms: Seq<MatchSpan>,
    w: Seq<i64>,
    len: int,
    k1: int,
    k2: int,
    pos: int,
)
    requires
        0 <= len,
        matches_span_ok(ms, len),
        matches_end_sorted(ms),
        0 <= k1 <= k2 <= ms.len(),
        0 <= pos <= len,
        k1 < ms.len() ==> pos < ms[k1].end,
    ensures
        dp_scores(ms, w, len, k2)[pos] == dp_scores(ms, w, len, k1)[pos],
    decreases k2 - k1,
{
    if k2 > k1 {
        lemma_dp_scores_stable(ms, w, len, k1, k2 - 1, pos);
        lemma_dp_len(ms, w, len, k2 - 1);
        lemma_dp_len(ms, w, len, k2);
        let sc = dp_scores(ms, w, len, k2 - 1);
        let m = ms[k2 - 1];
        assert(0 <= k2 - 1 < ms.len());
        assert(m.start < m.end && m.end <= len);
        assert(ms[k1].end <= m.end);
        let sc1 = dp_scores(ms, w, len, k2);
        assert(sc1 == step_scores(sc, m, w));
        assert(pos != m.end as int);
        assert(sc1[pos] == sc[pos]);
    }
}

/// After `k` steps every scored offset (other than 0) is scored through
/// its chosen route, and no scored offset lies beyond the last
/// processed match end.
proof fn lemma_dp_consistent(ms: Seq<MatchSpan>, w: Seq<i64>, len: int, k: int)
    requires
        0 <= len,
        matches_span_ok(ms, len),
        matches_end_sorted(ms),
        0 <= k <= ms.len(),
    ensures
        forall|e: int|
            1 <= e <= len && (#[trigger] dp_scores(ms, w, len, k)[e]) is Some ==> {
                let m = dp_routes(ms, w, len, k)[e]->0;
                &&& dp_routes(ms, w, len, k)[e] is Some
                &&& m.end == e
                &&& dp_scores(ms, w, len, k)[m.start as int] is Some
                &&& dp_scores(ms, w, len, k)[e]->0 == dp_scores(ms, w, len, k)[m.start as int]->0
                    + w[m.pid as int]
                &&& k >= 1 && e <= ms[k - 1].end
            },
    decreases k,
{
    lemma_dp_routes_chain(ms, w, len, k);
    if k > 0 {
        lemma_dp_consistent(ms, w, len, k - 1);
        lemma_dp_routes_chain(ms, w, len, k - 1);
        let sc = dp_scores(ms, w, len, k - 1);
        let rt = dp_routes(ms, w, len, k - 1);
        let mk = ms[k - 1];
        let sc1 = dp_scores(ms, w, len, k);
        let rt1 = dp_routes(ms, w, len, k);
        assert(sc1 == step_scores(sc, mk, w));
        assert(rt1 == step_routes(rt, sc, mk, w));
        assert forall|e: int|
            1 <= e <= len && (#[trigger] sc1[e]) is Some implies {
                let m = rt1[e]->0;
                &&& rt1[e] is Some
                &&& m.end == e
                &&& sc1[m.start as int] is Some
                &&& sc1[e]->0 == sc1[m.start as int]->0 + w[m.pid as int]
                &&& k >= 1 && e <= ms[k - 1].end
            } by {
            if accepts(sc, mk, w) && e == mk.end {
                assert(rt1[e]->0 == mk);
                assert(mk.start < mk.end);
                assert(sc1[mk.start as int] == sc[mk.start as int]);
            } else {
                assert(sc1[e] == sc[e]);
                assert(rt1[e] == rt[e]);
                let m = rt[e]->0;
                assert((m.start as int) < e);
                if accepts(sc, mk, w) {
                    assert(e <= ms[k - 2].end);
                    assert(ms[k - 2].end <= mk.end);
                    assert(m.start as int != mk.end as int);
                    assert(sc1[m.start as int] == sc[m.start as int]);
                } else {
                    assert(k >= 2);
                    assert(ms[k - 2].end <= ms[k - 1].end);
                }
            }
        }
    }
}

/// The weight of the backtraced segmentation equals the final score at
/// the offset it was read from.
pub proof fn lemma_bt_weight(ms: Seq<MatchSpan>, w: Seq<i64>, len: int, e: int)
    requires
        0 <= len,
        matches_span_ok(ms, len),
        matches_end_sorted(ms),
        0 <= e <= len,
        dp_scores(ms, w, len, ms.len() as int)[e] is Some,
    ensures
        path_weight(bt(dp_routes(ms, w, len, ms.len() as int), e, e as nat), w) == dp_scores(
            ms,
            w,
            len,
            ms.len() as int,
        )[e]->0,
    decreases e,
{
    let n = ms.len() as int;
    let sc = dp_scores(ms, w, len, n);
    let rt = dp_routes(ms, w, len, n);
    lemma_dp_routes_chain(ms, w, len, n);
    lemma_dp_consistent(ms, w, len, n);
    if e > 0 {
        let m = rt[e]->0;
        let s = m.start as int;
        lemma_bt_fuel(rt, len, s, (e - 1) as nat);
        lemma_bt_weight(ms, w, len, s);
        let sub = bt(rt, s, s as nat);
        let path = bt(rt, e, e as nat);
        assert(path =~= sub.push(m));
        assert(path.drop_last() =~= sub);
        assert(path.last() == m);
    } else {
        assert(bt(rt, 0, 0) =~= Seq::<MatchSpan>::empty());
    }
}

/// No segmentation scores better than the dynamic program: every valid
/// match chain from offset 0 to offset `e` weighs at most the final
/// score there (which in particular exists).  With `e` the whole span,
/// this says the deterministic segmentation maximizes the total
/// log-probability over all valid segmentations.
#[verifier::rlimit(50)]
pub proof fn lemma_dp_maximal(ms: Seq<MatchSpan>, w: Seq<i64>, len: int, e: int, path: Seq<MatchSpan>)
    requires
        0 <= len,
        matches_span_ok(ms, len),
        matches_end_sorted(ms),
        0 <= e <= len,
        path_ok(ms, e, path),
    ensures
        dp_scores(ms, w, len, ms.len() as int)[e] is Some,
        path_weight(path, w) <= dp_scores(ms, w, len, ms.len() as int)[e]->0,
    decreases path.len(),
{
    let n = ms.len() as int;
    let sc = dp_scores(ms, w, len, n);
    lemma_dp_routes_chain(ms, w, len, n);
    if path.len() == 0 {
        assert(e == 0);
    } else {
        let m = path.last();
        let q = path.drop_last();
        assert(ms.contains(m));
        assert(m.end == e);
        assert(path_ok(ms, m.start as int, q)) by {
            assert(forall|i: int| 0 <= i < q.len() ==> q[i] == path[i]);
            if q.len() > 0 {
                assert(q[q.len() - 1].end == path[path.len() - 2].end);
                assert(path[path.len() - 2].end == path[path.len() - 1].start);
            }
        }
        let s = m.start as int;
        lemma_dp_maximal(ms, w, len, s, q);
        let k = choose|k: int| 0 <= k < ms.len() && ms[k] == m;
        lemma_dp_scores_stable(ms, w, len, k, n, s);
        lemma_dp_len(ms, w, len, k);
        lemma_dp_len(ms, w, len, k + 1);
        let sck = dp_scores(ms, w, len, k);
        let sck1 = dp_scores(ms, w, len, k + 1);
        assert(m.start < m.end && m.end <= len);
        assert(sck1 == step_scores(sck, m, w));
        assert(sck[s] == sc[s]);
        assert(sck[s] is Some);
        let cand = sck[s]->0 + w[m.pid as int];
        assert(sck1[e] is Some && sck1[e]->0 >= cand) by {
            if accepts(sck, m, w) {
                assert(sck1 == sck.update(m.end as int, Some(cand)));
                assert(sck1[e] == Some(cand));
            } else {
                assert(sck[e] is Some && sck[e]->0 >= cand);
                assert(sck1 == sck);
            }
        }
        lemma_dp_scores_monotone(ms, w, len, k + 1, n);
        assert(path_weight(path, w) == path_weight(q, w) + w[m.pid as int]);
    }
}

} // verus!
