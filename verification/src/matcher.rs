//! The multi-pattern byte matcher over the vocabulary.
//!
//! An automaton is built once over every vocabulary token and then
//! reports, for a byte span, every occurrence of every token, including
//! overlapping ones — the segmenter must see every possible boundary.
//! The automaton itself comes from an outside crate; everything the
//! library relies on about it is stated here.

use vstd::prelude::*;

use crate::error::Error;

verus! {

/// One reported token occurrence: the half-open haystack span
/// `[start, end)` and the index of the pattern that matched there.
#[derive(Clone, Copy, Debug, PartialEq, Eq, Structural)]
pub struct MatchSpan {
    pub start: usize,
    pub end: usize,
    pub pid: usize,
}

#[verifier::external_type_specification]
#[verifier::external_body]
pub struct ExAhoCorasick(aho_corasick::AhoCorasick);

/// The pattern list an automaton was built over, in build order.
pub uninterp spec fn automaton_patterns(ac: aho_corasick::AhoCorasick) -> Seq<Seq<u8>>;

/// Whether an automaton was built with standard match semantics, the
/// only kind that supports overlapping search.
pub uninterp spec fn automaton_standard(ac: aho_corasick::AhoCorasick) -> bool;

/// Pattern `p` occurs at `[s, e)` in `text`.
pub open spec fn is_occurrence(
    pats: Seq<Seq<u8>>,
    text: Seq<u8>,
    s: int,
    e: int,
    p: int,
) -> bool {
    &&& 0 <= s < e <= text.len()
    &&& 0 <= p < pats.len()
    &&& text.subrange(s, e) == pats[p]
}

/// Every reported span really is an occurrence of its pattern.
pub open spec fn matches_sound(pats: Seq<Seq<u8>>, text: Seq<u8>, ms: Seq<MatchSpan>) -> bool {
    forall|i: int|
        0 <= i < ms.len() ==> is_occurrence(
            pats,
            text,
            (#[trigger] ms[i]).start as int,
            ms[i].end as int,
            ms[i].pid as int,
        )
}

/// Every occurrence of every pattern is reported.
pub open spec fn matches_complete(pats: Seq<Seq<u8>>, text: Seq<u8>, ms: Seq<MatchSpan>) -> bool {
    forall|s: int, e: int, p: int|
        #[trigger] is_occurrence(pats, text, s, e, p) ==> exists|i: int|
            0 <= i < ms.len() && (#[trigger] ms[i]).start == s && ms[i].end == e && ms[i].pid == p
}

/// Match end positions never decrease along the report order.
pub open spec fn matches_end_sorted(ms: Seq<MatchSpan>) -> bool {
    forall|i: int, j: int|
        0 <= i < j < ms.len() ==> (#[trigger] ms[i]).end <= (#[trigger] ms[j]).end
}

/// `a` is reported strictly before `b`: it ends earlier, or at the same
/// position starting earlier.
pub open spec fn span_lt(a: MatchSpan, b: MatchSpan) -> bool {
    a.end < b.end || (a.end == b.end && a.start < b.start)
}

/// Reports are strictly ordered by end position, then start position.
pub open spec fn matches_strictly_ordered(ms: Seq<MatchSpan>) -> bool {
    forall|i: int, j: int| 0 <= i < j < ms.len() ==> span_lt(#[trigger] ms[i], #[trigger] ms[j])
}

/// The full discipline of one matcher pass over `text`: sound, complete
/// and strictly ordered.
pub open spec fn matcher_output_ok(pats: Seq<Seq<u8>>, text: Seq<u8>, ms: Seq<MatchSpan>) -> bool {
    &&& matches_sound(pats, text, ms)
    &&& matches_complete(pats, text, ms)
    &&& matches_strictly_ordered(ms)
}

/// The one sequence the matcher reports for `text` (well defined when
/// the patterns are distinct; see the uniqueness lemma).
pub open spec fn the_matches(pats: Seq<Seq<u8>>, text: Seq<u8>) -> Seq<MatchSpan> {
    choose|ms: Seq<MatchSpan>| matcher_output_ok(pats, text, ms)
}

/// Two strictly ordered sequences holding the same spans, where equal
/// (end, start) pairs force equal elements, are the same sequence.
proof fn lemma_strictly_ordered_unique(a: Seq<MatchSpan>, b: Seq<MatchSpan>)
    requires
        matches_strictly_ordered(a),
        matches_strictly_ordered(b),
        forall|m: MatchSpan| a.contains(m) <==> b.contains(m),
        forall|m1: MatchSpan, m2: MatchSpan|
            a.contains(m1) && a.contains(m2) && m1.end == m2.end && m1.start == m2.start
                ==> m1 == m2,
    ensures
        a =~= b,
    decreases a.len(),
{
    if a.len() == 0 {
        if b.len() > 0 {
            assert(b.contains(b[0]));
        }
    } else {
        assert(a.contains(a[0]));
        assert(b.contains(a[0]));
        assert(b.len() > 0) by {
            if b.len() == 0 {
                assert(!b.contains(a[0]));
            }
        }
        assert(b.contains(b[0]));
        assert(a.contains(b[0]));
        assert(a[0] == b[0]) by {
            let i = choose|i: int| 0 <= i < a.len() && a[i] == b[0];
            let j = choose|j: int| 0 <= j < b.len() && b[j] == a[0];
            if i > 0 {
                assert(span_lt(a[0], a[i]));
            }
            if j > 0 {
                assert(span_lt(b[0], b[j]));
            }
        }
        let ta = a.drop_first();
        let tb = b.drop_first();
        assert forall|m: MatchSpan| ta.contains(m) <==> tb.contains(m) by {
            if ta.contains(m) {
                let i = choose|i: int| 0 <= i < ta.len() && ta[i] == m;
                assert(a[i + 1] == m);
                assert(a.contains(m));
                assert(span_lt(a[0], m));
                let j = choose|j: int| 0 <= j < b.len() && b[j] == m;
                assert(j > 0) by {
                    if j == 0 {
                        assert(m == b[0]);
                    }
                }
                assert(tb[j - 1] == m);
                assert(tb.contains(m));
            }
            if tb.contains(m) {
                let i = choose|i: int| 0 <= i < tb.len() && tb[i] == m;
                assert(b[i + 1] == m);
                assert(b.contains(m));
                assert(span_lt(b[0], m));
                let j = choose|j: int| 0 <= j < a.len() && a[j] == m;
                assert(j > 0) by {
                    if j == 0 {
                        assert(m == a[0]);
                    }
                }
                assert(ta[j - 1] == m);
                assert(ta.contains(m));
            }
        }
        assert forall|m1: MatchSpan, m2: MatchSpan|
            ta.contains(m1) && ta.contains(m2) && m1.end == m2.end && m1.start == m2.start
                implies m1 == m2 by {
            if ta.contains(m1) && ta.contains(m2) {
                let i1 = choose|i: int| 0 <= i < ta.len() && ta[i] == m1;
                let i2 = choose|i: int| 0 <= i < ta.len() && ta[i] == m2;
                assert(a[i1 + 1] == m1 && a[i2 + 1] == m2);
                assert(a.contains(m1) && a.contains(m2));
            }
        }
        assert forall|i: int, j: int| 0 <= i < j < ta.len() implies span_lt(
            #[trigger] ta[i],
            #[trigger] ta[j],
        ) by {
            assert(ta[i] == a[i + 1] && ta[j] == a[j + 1]);
        }
        assert forall|i: int, j: int| 0 <= i < j < tb.len() implies span_lt(
            #[trigger] tb[i],
            #[trigger] tb[j],
        ) by {
            assert(tb[i] == b[i + 1] && tb[j] == b[j + 1]);
        }
        lemma_strictly_ordered_unique(ta, tb);
        assert(a =~= seq![a[0]] + ta);
        assert(b =~= seq![b[0]] + tb);
    }
}

/// With distinct patterns there is exactly one sequence the matcher can
/// report, so anything satisfying the discipline is `the_matches`.
pub proof fn lemma_matcher_output_unique(pats: Seq<Seq<u8>>, text: Seq<u8>, ms: Seq<MatchSpan>)
    requires
        pats.no_duplicates(),
        matcher_output_ok(pats, text, ms),
    ensures
        ms == the_matches(pats, text),
{
    let other = the_matches(pats, text);
    assert(matcher_output_ok(pats, text, other));
    assert forall|m: MatchSpan| ms.contains(m) <==> other.contains(m) by {
        if ms.contains(m) {
            let i = choose|i: int| 0 <= i < ms.len() && ms[i] == m;
            assert(is_occurrence(pats, text, m.start as int, m.end as int, m.pid as int));
            let j = choose|j: int|
                0 <= j < other.len() && other[j].start == m.start as int && other[j].end
                    == m.end as int && other[j].pid == m.pid as int;
            assert(other[j] == m);
            assert(other.contains(m));
        }
        if other.contains(m) {
            let i = choose|i: int| 0 <= i < other.len() && other[i] == m;
            assert(is_occurrence(pats, text, m.start as int, m.end as int, m.pid as int));
            let j = choose|j: int|
                0 <= j < ms.len() && ms[j].start == m.start as int && ms[j].end == m.end as int
                    && ms[j].pid == m.pid as int;
            assert(ms[j] == m);
            assert(ms.contains(m));
        }
    }
    assert forall|m1: MatchSpan, m2: MatchSpan|
        ms.contains(m1) && ms.contains(m2) && m1.end == m2.end && m1.start == m2.start
            implies m1 == m2 by {
        if ms.contains(m1) && ms.contains(m2) {
            let i1 = choose|i: int| 0 <= i < ms.len() && ms[i] == m1;
            let i2 = choose|i: int| 0 <= i < ms.len() && ms[i] == m2;
            assert(is_occurrence(pats, text, m1.start as int, m1.end as int, m1.pid as int));
            assert(is_occurrence(pats, text, m2.start as int, m2.end as int, m2.pid as int));
            assert(pats[m1.pid as int] == pats[m2.pid as int]);
            if m1.pid != m2.pid {
                assert(pats[m1.pid as int] != pats[m2.pid as int]);
            }
        }
    }
    lemma_strictly_ordered_unique(ms, other);
    assert(ms =~= other);
}

/// Relies on `AhoCorasickBuilder::build` with `MatchKind::Standard`: on
/// success the automaton holds exactly the given patterns, indexed in
/// the given order, with standard match semantics.
#[verifier::external_body]
pub(crate) fn build_automaton(patterns: &Vec<Vec<u8>>) -> (r: Result<
    aho_corasick::AhoCorasick,
    Error,
>)
    ensures
        r matches Ok(ac) ==> automaton_patterns(ac) == patterns@.map_values(|p: Vec<u8>| p@)
            && automaton_standard(ac),
        r matches Err(e) ==> e == Error::PatternBuildError,
{
    let built = aho_corasick::AhoCorasick::builder().match_kind(
        aho_corasick::MatchKind::Standard,
    ).build(patterns);
    match built {
        Ok(ac) => Ok(ac),
        Err(_) => Err(Error::PatternBuildError),
    }
}

/// Relies on `AhoCorasick::find_overlapping_iter`: with standard match
/// semantics it reports all matches of all patterns at every position,
/// walking the haystack left to right, so end positions never decrease;
/// at one end position the automaton reports the longest match first and
/// then ever shorter suffixes, so with distinct patterns the order is
/// strict by (end, start).  Non-empty patterns never match an empty
/// span.
#[verifier::external_body]
pub(crate) fn find_overlapping(ac: &aho_corasick::AhoCorasick, text: &Vec<u8>) -> (r: Vec<
    MatchSpan,
>)
    requires
        automaton_standard(*ac),
        forall|p: int|
            0 <= p < automaton_patterns(*ac).len() ==> (#[trigger] automaton_patterns(
                *ac,
            )[p]).len() > 0,
    ensures
        matches_sound(automaton_patterns(*ac), text@, r@),
        matches_complete(automaton_patterns(*ac), text@, r@),
        matches_end_sorted(r@),
        automaton_patterns(*ac).no_duplicates() ==> matches_strictly_ordered(r@),
{
    let mut out = Vec::new();
    for m in ac.find_overlapping_iter(text.as_slice()) {
        out.push(MatchSpan { start: m.start(), end: m.end(), pid: m.pattern().as_usize() });
    }
    out
}

} // verus!
