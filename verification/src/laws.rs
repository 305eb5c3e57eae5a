//! The library's laws: facts that tie several operations together,
//! stated and proved over the same specifications the operations'
//! contracts use.

use vstd::prelude::*;
use vstd::utf8::decode_utf8;
use vstd::utf8::encode_utf8;
use vstd::utf8::encode_utf8_decode_utf8;
use vstd::utf8::valid_utf8;

use crate::chunker::chunks_of;
use crate::chunker::lemma_chunks_concat;
use crate::chunker::lemma_flatten_push;
use crate::matcher::MatchSpan;
use crate::matcher::is_occurrence;
use crate::matcher::matcher_output_ok;
use crate::matcher::matches_complete;
use crate::matcher::matches_sound;
use crate::matcher::matches_strictly_ordered;
use crate::matcher::span_lt;
use crate::matcher::the_matches;
use crate::segment::bt;
use crate::segment::dp_routes;
use crate::segment::dp_scores;
use crate::segment::lemma_bt_path_ok;
use crate::segment::lemma_bt_weight;
use crate::segment::lemma_dp_maximal;
use crate::segment::lemma_dp_routes_chain;
use crate::segment::matches_span_ok;
use crate::segment::path_ok;
use crate::segment::path_weight;
use crate::tokenizer::Tokenizer;
use crate::tokenizer::token_text;

verus! {

/// Some pattern is spelled exactly `b`.
pub open spec fn has_pattern(pats: Seq<Seq<u8>>, b: Seq<u8>) -> bool {
    exists|p: int| 0 <= p < pats.len() && pats[p] == b
}

/// The index of the pattern spelled `b`.
pub open spec fn pid_of(pats: Seq<Seq<u8>>, b: Seq<u8>) -> int {
    choose|p: int| 0 <= p < pats.len() && pats[p] == b
}

/// The occurrence at `[s, e)`, if a pattern is spelled there.
spec fn occ_at(pats: Seq<Seq<u8>>, text: Seq<u8>, s: int, e: int) -> Seq<MatchSpan> {
    if has_pattern(pats, text.subrange(s, e)) {
        seq![
            MatchSpan {
                start: s as usize,
                end: e as usize,
                pid: pid_of(pats, text.subrange(s, e)) as usize,
            },
        ]
    } else {
        Seq::empty()
    }
}

/// All occurrences ending at `e` whose start is at least `s`, start
/// ascending.
spec fn occs_at_end(pats: Seq<Seq<u8>>, text: Seq<u8>, e: int, s: int) -> Seq<MatchSpan>
    decreases e - s when s <= e
{
    if s >= e {
        Seq::empty()
    } else {
        occ_at(pats, text, s, e) + occs_at_end(pats, text, e, s + 1)
    }
}

/// All occurrences ending at or before `e`, in (end, start) order.
spec fn occs_upto(pats: Seq<Seq<u8>>, text: Seq<u8>, e: int) -> Seq<MatchSpan>
    decreases e when e >= 0
{
    if e <= 0 {
        Seq::empty()
    } else {
        occs_upto(pats, text, e - 1) + occs_at_end(pats, text, e, 0)
    }
}

proof fn lemma_occs_at_end(pats: Seq<Seq<u8>>, text: Seq<u8>, e: int, s: int)
    requires
        pats.no_duplicates(),
        0 <= s <= e <= text.len(),
        e >= 1,
        text.len() <= usize::MAX,
        pats.len() <= usize::MAX,
    ensures
        ({
            let ms = occs_at_end(pats, text, e, s);
            &&& forall|i: int|
                0 <= i < ms.len() ==> ((#[trigger] ms[i]).end == e && s <= ms[i].start
                    && is_occurrence(pats, text, ms[i].start as int, ms[i].end as int,
                    ms[i].pid as int))
            &&& forall|x: int, p: int|
                s <= x < e && #[trigger] is_occurrence(pats, text, x, e, p) ==> exists|i: int|
                    0 <= i < ms.len() && (#[trigger] ms[i]).start == x && ms[i].end == e
                        && ms[i].pid == p
            &&& forall|i: int, j: int|
                0 <= i < j < ms.len() ==> (#[trigger] ms[i]).start < (#[trigger] ms[j]).start
        }),
    decreases e - s,
{
    if s < e {
        lemma_occs_at_end(pats, text, e, s + 1);
        let ms = occs_at_end(pats, text, e, s);
        let head = occ_at(pats, text, s, e);
        let tail = occs_at_end(pats, text, e, s + 1);
        assert(ms == head + tail);
        assert forall|i: int|
            0 <= i < ms.len() implies ((#[trigger] ms[i]).end == e && s <= ms[i].start
            && is_occurrence(pats, text, ms[i].start as int, ms[i].end as int,
        ms[i].pid as int)) by {
            if i < head.len() {
                assert(ms[i] == head[0]);
                let p = pid_of(pats, text.subrange(s, e));
                assert(0 <= p < pats.len() && pats[p] == text.subrange(s, e));
            } else {
                assert(ms[i] == tail[i - head.len()]);
            }
        }
        assert forall|x: int, p: int|
            s <= x < e && #[trigger] is_occurrence(pats, text, x, e, p) implies exists|i: int|
            0 <= i < ms.len() && (#[trigger] ms[i]).start == x && ms[i].end == e && ms[i].pid
                == p by {
            if x == s {
                assert(has_pattern(pats, text.subrange(s, e)));
                let q = pid_of(pats, text.subrange(s, e));
                assert(0 <= q < pats.len() && pats[q] == text.subrange(s, e));
                assert(pats[p] == text.subrange(s, e));
                if p != q {
                    assert(pats[p] == pats[q]);
                    assert(false);
                }
                assert(ms[0].start == x && ms[0].end == e && ms[0].pid == p);
            } else {
                let i = choose|i: int|
                    0 <= i < tail.len() && (#[trigger] tail[i]).start == x && tail[i].end == e
                        && tail[i].pid == p;
                assert(ms[head.len() + i].start == x && ms[head.len() + i].end == e && ms[
                    head.len() + i
                ].pid == p);
            }
        }
        assert forall|i: int, j: int|
            0 <= i < j < ms.len() implies (#[trigger] ms[i]).start < (#[trigger] ms[j]).start by {
            if i < head.len() {
                assert(ms[i].start == s);
                assert(ms[j] == tail[j - head.len()]);
                assert(s + 1 <= ms[j].start);
            } else {
                assert(ms[i] == tail[i - head.len()]);
                assert(ms[j] == tail[j - head.len()]);
            }
        }
    }
}

proof fn lemma_occs_upto(pats: Seq<Seq<u8>>, text: Seq<u8>, e: int)
    requires
        pats.no_duplicates(),
        0 <= e <= text.len(),
        text.len() <= usize::MAX,
        pats.len() <= usize::MAX,
    ensures
        ({
            let ms = occs_upto(pats, text, e);
            &&& forall|i: int|
                0 <= i < ms.len() ==> ((#[trigger] ms[i]).end <= e && is_occurrence(
                    pats,
                    text,
                    ms[i].start as int,
                    ms[i].end as int,
                    ms[i].pid as int,
                ))
            &&& forall|x: int, y: int, p: int|
                y <= e && #[trigger] is_occurrence(pats, text, x, y, p) ==> exists|i: int|
                    0 <= i < ms.len() && (#[trigger] ms[i]).start == x && ms[i].end == y
                        && ms[i].pid == p
            &&& matches_strictly_ordered(ms)
        }),
    decreases e,
{
    if e > 0 {
        lemma_occs_upto(pats, text, e - 1);
        lemma_occs_at_end(pats, text, e, 0);
        let ms = occs_upto(pats, text, e);
        let front = occs_upto(pats, text, e - 1);
        let back = occs_at_end(pats, text, e, 0);
        assert(ms == front + back);
        assert forall|i: int|
            0 <= i < ms.len() implies ((#[trigger] ms[i]).end <= e && is_occurrence(
            pats,
            text,
            ms[i].start as int,
            ms[i].end as int,
            ms[i].pid as int,
        )) by {
            if i < front.len() {
                assert(ms[i] == front[i]);
            } else {
                assert(ms[i] == back[i - front.len()]);
            }
        }
        assert forall|x: int, y: int, p: int|
            y <= e && #[trigger] is_occurrence(pats, text, x, y, p) implies exists|i: int|
            0 <= i < ms.len() && (#[trigger] ms[i]).start == x && ms[i].end == y && ms[i].pid
                == p by {
            if y < e {
                let i = choose|i: int|
                    0 <= i < front.len() && (#[trigger] front[i]).start == x && front[i].end == y
                        && front[i].pid == p;
                assert(ms[i].start == x && ms[i].end == y && ms[i].pid == p);
            } else {
                assert(0 <= x < e);
                let i = choose|i: int|
                    0 <= i < back.len() && (#[trigger] back[i]).start == x && back[i].end == y
                        && back[i].pid == p;
                assert(ms[front.len() + i].start == x && ms[front.len() + i].end == y && ms[
                    front.len() + i
                ].pid == p);
            }
        }
        assert forall|i: int, j: int|
            0 <= i < j < ms.len() implies span_lt(#[trigger] ms[i], #[trigger] ms[j]) by {
            if j < front.len() {
                assert(ms[i] == front[i] && ms[j] == front[j]);
            } else if i >= front.len() {
                assert(ms[i] == back[i - front.len()] && ms[j] == back[j - front.len()]);
            } else {
                assert(ms[i] == front[i] && ms[j] == back[j - front.len()]);
                assert(ms[i].end <= e - 1);
                assert(ms[j].end == e);
            }
        }
    }
}

/// The matcher discipline is always satisfiable: for distinct patterns
/// `the_matches` really is the matcher's one possible report.
pub proof fn lemma_matcher_total(pats: Seq<Seq<u8>>, text: Seq<u8>)
    requires
        pats.no_duplicates(),
        text.len() <= usize::MAX,
        pats.len() <= usize::MAX,
    ensures
        matcher_output_ok(pats, text, the_matches(pats, text)),
{
    let ms = occs_upto(pats, text, text.len() as int);
    lemma_occs_upto(pats, text, text.len() as int);
    assert(matches_sound(pats, text, ms));
    assert(matches_complete(pats, text, ms)) by {
        assert forall|x: int, y: int, p: int|
            #[trigger] is_occurrence(pats, text, x, y, p) implies exists|i: int|
            0 <= i < ms.len() && (#[trigger] ms[i]).start == x && ms[i].end == y && ms[i].pid
                == p by {
            assert(y <= text.len());
        }
    }
    assert(matcher_output_ok(pats, text, ms));
}

/// UTF-8 encoding distributes over concatenation.
pub proof fn lemma_encode_utf8_concat(a: Seq<char>, b: Seq<char>)
    ensures
        encode_utf8(a + b) =~= encode_utf8(a) + encode_utf8(b),
    decreases a.len(),
{
    if a.len() == 0 {
        assert(a + b =~= b);
    } else {
        assert((a + b).drop_first() =~= a.drop_first() + b);
        lemma_encode_utf8_concat(a.drop_first(), b);
        assert((a + b)[0] == a[0]);
    }
}

/// UTF-8 encoding of a concatenation of texts is the concatenation of
/// their encodings.
proof fn lemma_encode_utf8_flatten(ss: Seq<Seq<char>>)
    ensures
        encode_utf8(ss.flatten()) =~= ss.map_values(|c: Seq<char>| encode_utf8(c)).flatten(),
    decreases ss.len(),
{
    if ss.len() == 0 {
        assert(ss.flatten() =~= Seq::<char>::empty());
        assert(ss.map_values(|c: Seq<char>| encode_utf8(c)).flatten() =~= Seq::<u8>::empty());
    } else {
        lemma_encode_utf8_flatten(ss.drop_first());
        assert(ss.flatten() == ss.first() + ss.drop_first().flatten());
        lemma_encode_utf8_concat(ss.first(), ss.drop_first().flatten());
        let mapped = ss.map_values(|c: Seq<char>| encode_utf8(c));
        assert(mapped.drop_first() =~= ss.drop_first().map_values(|c: Seq<char>| encode_utf8(c)));
        assert(mapped.flatten() == mapped.first() + mapped.drop_first().flatten());
        assert(mapped.first() == encode_utf8(ss.first()));
    }
}

/// The bytes of adjacent spans over `b`, chained from 0 to `e`,
/// concatenate back to the first `e` bytes of `b`.
proof fn lemma_path_bytes_concat(b: Seq<u8>, path: Seq<MatchSpan>, e: int)
    requires
        0 <= e <= b.len(),
        forall|i: int|
            0 <= i < path.len() ==> (#[trigger] path[i]).start < path[i].end && path[i].end
                <= b.len(),
        forall|i: int| 0 <= i < path.len() - 1 ==> (#[trigger] path[i]).end == path[i + 1].start,
        path.len() == 0 ==> e == 0,
        path.len() > 0 ==> path[0].start == 0 && path[path.len() - 1].end == e,
    ensures
        path.map_values(|m: MatchSpan| b.subrange(m.start as int, m.end as int)).flatten() =~= b
            .subrange(0, e),
    decreases path.len(),
{
    let mapped = path.map_values(|m: MatchSpan| b.subrange(m.start as int, m.end as int));
    if path.len() == 0 {
        assert(mapped.flatten() =~= Seq::<u8>::empty());
    } else {
        let q = path.drop_last();
        let m = path.last();
        let s = m.start as int;
        assert(forall|i: int| 0 <= i < q.len() ==> q[i] == path[i]);
        if q.len() > 0 {
            assert(q[q.len() - 1].end == path[path.len() - 2].end);
            assert(path[path.len() - 2].end == path[path.len() - 1].start);
        }
        lemma_path_bytes_concat(b, q, s);
        let qmapped = q.map_values(|mm: MatchSpan| b.subrange(mm.start as int, mm.end as int));
        assert(mapped =~= qmapped.push(b.subrange(s, e)));
        lemma_flatten_push(qmapped, b.subrange(s, e));
        assert(b.subrange(0, s) + b.subrange(s, e) =~= b.subrange(0, e));
    }
}

/// The bytes of each token the deterministic pass picks for a span.
pub open spec fn chunk_token_bytes(t: &Tokenizer, b: Seq<u8>) -> Seq<Seq<u8>> {
    t.spec_chunk_path(b).map_values(|m: MatchSpan| b.subrange(m.start as int, m.end as int))
}

/// Every token the deterministic pass picks for a span is valid UTF-8
/// on its own.
pub open spec fn chunk_tokens_utf8(t: &Tokenizer, b: Seq<u8>) -> bool {
    forall|i: int|
        0 <= i < chunk_token_bytes(t, b).len() ==> valid_utf8(#[trigger] chunk_token_bytes(t, b)[i])
}

/// One chunk's round trip: decoding the ids the deterministic pass
/// emits for the UTF-8 bytes of `c` yields `c` again, provided every
/// picked token is valid UTF-8 by itself.
proof fn lemma_chunk_round_trip(t: &Tokenizer, c: Seq<char>)
    requires
        t.wf(),
        encode_utf8(c).len() <= usize::MAX,
        t.spec_chunk_ok(encode_utf8(c)),
        chunk_tokens_utf8(t, encode_utf8(c)),
    ensures
        t.spec_decode(t.spec_chunk_ids(encode_utf8(c))) == c,
{
    let b = encode_utf8(c);
    let pats = t.pats();
    let w = t.w();
    let len = b.len() as int;
    t.lemma_pats_distinct();
    vstd::std_specs::vec::axiom_spec_len(&t.vocab.entries);
    lemma_matcher_total(pats, b);
    let ms = the_matches(pats, b);
    assert(matches_span_ok(ms, len)) by {
        assert forall|i: int|
            0 <= i < ms.len() implies ((#[trigger] ms[i]).start < ms[i].end && ms[i].end
            <= len) by {
            assert(is_occurrence(pats, b, ms[i].start as int, ms[i].end as int, ms[i].pid as int));
        }
    }
    let n = ms.len() as int;
    lemma_dp_routes_chain(ms, w, len, n);
    let rt = dp_routes(ms, w, len, n);
    let path = t.spec_chunk_path(b);
    assert(path == bt(rt, len, len as nat));
    lemma_bt_path_ok(rt, ms, len, len);
    assert(path_ok(ms, len, path));
    let ids = t.spec_chunk_ids(b);
    let tb = chunk_token_bytes(t, b);
    // Each picked token occurs at its span, and its id decodes back to
    // exactly its bytes.
    assert forall|i: int| 0 <= i < path.len() implies ((#[trigger] path[i]).start < path[i].end
        && path[i].end <= b.len() && (path[i].pid as int) < pats.len() && tb[i] == pats[
        path[i].pid as int
    ]) by {
        assert(ms.contains(path[i]));
        let j = choose|j: int| 0 <= j < ms.len() && ms[j] == path[i];
        assert(is_occurrence(pats, b, ms[j].start as int, ms[j].end as int, ms[j].pid as int));
    }
    let decoded = t.spec_decode(ids);
    let dec_parts = ids.map_values(
        |id: usize| token_text(t.vocab.spec_token_of_id(id as int)),
    );
    assert(decoded == dec_parts.flatten());
    assert forall|i: int| 0 <= i < path.len() implies dec_parts[i] == decode_utf8(tb[i]) by {
        let p = path[i].pid as int;
        assert(ids[i] == t.vocab.spec_ids()[p]);
        assert(t.vocab.spec_ids()[p] == t.vocab.entries@[p].id);
        assert(t.vocab.spec_token_of_id(t.vocab.entries@[p].id as int) == t.vocab.entries@[
            p
        ].token@);
        assert(tb[i] == pats[p]);
        assert(pats[p] == t.vocab.entries@[p].token@);
        assert(valid_utf8(tb[i]));
    }
    assert(dec_parts =~= path.map_values(
        |m: MatchSpan| decode_utf8(b.subrange(m.start as int, m.end as int)),
    ));
    // Re-encoding the decoded text gives the chunk's bytes back.
    lemma_encode_utf8_flatten(dec_parts);
    assert(dec_parts.map_values(|x: Seq<char>| encode_utf8(x)) =~= tb) by {
        assert forall|i: int|
            0 <= i < dec_parts.len() implies dec_parts.map_values(|x: Seq<char>| encode_utf8(x))[i]
            == tb[i] by {
            vstd::utf8::decode_utf8_encode_utf8(tb[i]);
        }
    }
    lemma_path_bytes_concat(b, path, len);
    assert(b.subrange(0, len) =~= b);
    assert(encode_utf8(decoded) =~= b);
    encode_utf8_decode_utf8(decoded);
    encode_utf8_decode_utf8(c);
    assert(decode_utf8(encode_utf8(decoded)) == decoded);
    assert(decode_utf8(encode_utf8(c)) == c);
}

/// Decoding distributes over concatenation of id sequences.
proof fn lemma_decode_concat(t: &Tokenizer, a: Seq<usize>, b: Seq<usize>)
    ensures
        t.spec_decode(a + b) =~= t.spec_decode(a) + t.spec_decode(b),
{
    let f = |id: usize| token_text(t.vocab.spec_token_of_id(id as int));
    assert((a + b).map_values(f) =~= a.map_values(f) + b.map_values(f));
    vstd::seq_lib::lemma_flatten_concat(a.map_values(f), b.map_values(f));
}

/// Round trip: encoding a text without markers or normalization and
/// decoding the resulting ids restores the text exactly, provided the
/// text can be segmented and every picked token is valid UTF-8 on its
/// own.  (A token that splits a multi-byte character is skipped by
/// decode, so such segmentations do not round-trip; a vocabulary of
/// single bytes segmenting a multi-byte character is the standard
/// counterexample.)
pub proof fn lemma_round_trip(t: &Tokenizer, text: Seq<char>)
    requires
        t.wf(),
        t.spec_text_ok(text),
        forall|k: int|
            0 <= k < chunks_of(text).len() ==> encode_utf8(#[trigger] chunks_of(text)[k]).len()
                <= usize::MAX,
        forall|k: int|
            0 <= k < chunks_of(text).len() ==> chunk_tokens_utf8(
                t,
                encode_utf8(#[trigger] chunks_of(text)[k]),
            ),
    ensures
        t.spec_decode(t.spec_tokenize_text(text)) == text,
{
    let cs = chunks_of(text);
    let mapped = cs.map_values(|c: Seq<char>| t.spec_chunk_ids(encode_utf8(c)));
    lemma_round_trip_prefix(t, text, cs.len() as int);
    assert(mapped.take(cs.len() as int) =~= mapped);
    assert(cs.take(cs.len() as int) =~= cs);
    lemma_chunks_concat(text);
}

/// Round trip over the first `k` chunks.
proof fn lemma_round_trip_prefix(t: &Tokenizer, text: Seq<char>, k: int)
    requires
        t.wf(),
        t.spec_text_ok(text),
        0 <= k <= chunks_of(text).len(),
        forall|x: int|
            0 <= x < chunks_of(text).len() ==> encode_utf8(#[trigger] chunks_of(text)[x]).len()
                <= usize::MAX,
        forall|x: int|
            0 <= x < chunks_of(text).len() ==> chunk_tokens_utf8(
                t,
                encode_utf8(#[trigger] chunks_of(text)[x]),
            ),
    ensures
        ({
            let cs = chunks_of(text);
            let mapped = cs.map_values(|c: Seq<char>| t.spec_chunk_ids(encode_utf8(c)));
            t.spec_decode(mapped.take(k).flatten()) =~= cs.take(k).flatten()
        }),
    decreases k,
{
    let cs = chunks_of(text);
    let mapped = cs.map_values(|c: Seq<char>| t.spec_chunk_ids(encode_utf8(c)));
    if k == 0 {
        assert(mapped.take(0).flatten() =~= Seq::<usize>::empty());
        assert(t.spec_decode(Seq::<usize>::empty()) =~= Seq::<char>::empty());
        assert(cs.take(0).flatten() =~= Seq::<char>::empty());
    } else {
        lemma_round_trip_prefix(t, text, k - 1);
        assert(mapped.take(k) =~= mapped.take(k - 1).push(mapped[k - 1]));
        lemma_flatten_push(mapped.take(k - 1), mapped[k - 1]);
        lemma_decode_concat(t, mapped.take(k - 1).flatten(), mapped[k - 1]);
        lemma_chunk_round_trip(t, cs[k - 1]);
        assert(mapped[k - 1] == t.spec_chunk_ids(encode_utf8(cs[k - 1])));
        assert(cs.take(k) =~= cs.take(k - 1).push(cs[k - 1]));
        lemma_flatten_push(cs.take(k - 1), cs[k - 1]);
    }
}

/// The deterministic segmentation maximizes the total log-probability:
/// any chain of vocabulary-token occurrences covering a span weighs at
/// most what the deterministic pass picks for that span (which in
/// particular exists).
pub proof fn lemma_best_segmentation(t: &Tokenizer, b: Seq<u8>, path: Seq<MatchSpan>)
    requires
        t.wf(),
        b.len() <= usize::MAX,
        path_ok(the_matches(t.pats(), b), b.len() as int, path),
    ensures
        t.spec_chunk_ok(b),
        path_weight(path, t.w()) <= path_weight(t.spec_chunk_path(b), t.w()),
{
    let pats = t.pats();
    let w = t.w();
    let len = b.len() as int;
    t.lemma_pats_distinct();
    vstd::std_specs::vec::axiom_spec_len(&t.vocab.entries);
    lemma_matcher_total(pats, b);
    let ms = the_matches(pats, b);
    assert(matches_span_ok(ms, len)) by {
        assert forall|i: int|
            0 <= i < ms.len() implies ((#[trigger] ms[i]).start < ms[i].end && ms[i].end
            <= len) by {
            assert(is_occurrence(pats, b, ms[i].start as int, ms[i].end as int, ms[i].pid as int));
        }
    }
    assert(crate::matcher::matches_end_sorted(ms)) by {
        assert forall|i: int, j: int|
            0 <= i < j < ms.len() implies (#[trigger] ms[i]).end <= (#[trigger] ms[j]).end by {
            assert(span_lt(ms[i], ms[j]));
        }
    }
    lemma_dp_maximal(ms, w, len, len, path);
    lemma_bt_weight(ms, w, len, len);
}

} // verus!
