//! Splitting text into independently segmentable spans.
//!
//! A chunk is a maximal run of non-newline characters together with the
//! newline run that immediately follows it (a leading newline run of the
//! text forms a chunk of its own).  Trailing newlines therefore stay
//! attached to the text before them, so chunks can be segmented
//! independently and re-concatenated without losing newline placement.

use vstd::prelude::*;
use vstd::string::*;

verus! {

/// First position at or after `i` holding a newline, or the end of `s`.
pub open spec fn non_newline_end(s: Seq<char>, i: int) -> int
    recommends
        0 <= i <= s.len(),
    decreases s.len() - i when 0 <= i <= s.len()
{
    if i >= s.len() {
        s.len() as int
    } else if s[i] == '\n' {
        i
    } else {
        non_newline_end(s, i + 1)
    }
}

/// First position at or after `i` holding something other than a newline,
/// or the end of `s`.
pub open spec fn newline_end(s: Seq<char>, i: int) -> int
    recommends
        0 <= i <= s.len(),
    decreases s.len() - i when 0 <= i <= s.len()
{
    if i >= s.len() {
        s.len() as int
    } else if s[i] != '\n' {
        i
    } else {
        newline_end(s, i + 1)
    }
}

/// Where the first chunk of `s` ends: after its non-newline run and the
/// newline run that follows.
pub open spec fn first_chunk_end(s: Seq<char>) -> int {
    newline_end(s, non_newline_end(s, 0))
}

/// The chunks of `s`, in order.
pub open spec fn chunks_of(s: Seq<char>) -> Seq<Seq<char>>
    decreases s.len(),
    via chunks_of_decreases
{
    if s.len() == 0 {
        Seq::empty()
    } else {
        seq![s.subrange(0, first_chunk_end(s))] + chunks_of(s.skip(first_chunk_end(s)))
    }
}

#[via_fn]
proof fn chunks_of_decreases(s: Seq<char>) {
    if s.len() > 0 {
        lemma_first_chunk_end_bounds(s);
    }
}

proof fn lemma_non_newline_end_bounds(s: Seq<char>, i: int)
    requires
        0 <= i <= s.len(),
    ensures
        i <= non_newline_end(s, i) <= s.len(),
        forall|j: int| i <= j < non_newline_end(s, i) ==> s[j] != '\n',
        non_newline_end(s, i) < s.len() ==> s[non_newline_end(s, i)] == '\n',
    decreases s.len() - i,
{
    if i < s.len() && s[i] != '\n' {
        lemma_non_newline_end_bounds(s, i + 1);
    }
}

proof fn lemma_newline_end_bounds(s: Seq<char>, i: int)
    requires
        0 <= i <= s.len(),
    ensures
        i <= newline_end(s, i) <= s.len(),
        forall|j: int| i <= j < newline_end(s, i) ==> s[j] == '\n',
        newline_end(s, i) < s.len() ==> s[newline_end(s, i)] != '\n',
    decreases s.len() - i,
{
    if i < s.len() && s[i] == '\n' {
        lemma_newline_end_bounds(s, i + 1);
    }
}

proof fn lemma_first_chunk_end_bounds(s: Seq<char>)
    requires
        s.len() > 0,
    ensures
        0 < first_chunk_end(s) <= s.len(),
{
    lemma_non_newline_end_bounds(s, 0);
    lemma_newline_end_bounds(s, non_newline_end(s, 0));
}

/// Concatenating the chunks of `s` gives back `s` exactly.
pub proof fn lemma_chunks_concat(s: Seq<char>)
    ensures
        chunks_of(s).flatten() =~= s,
    decreases s.len(),
{
    if s.len() == 0 {
        assert(chunks_of(s).flatten() =~= Seq::<char>::empty());
    } else {
        let e = first_chunk_end(s);
        lemma_first_chunk_end_bounds(s);
        let head = s.subrange(0, e);
        let tail = s.skip(e);
        lemma_chunks_concat(tail);
        assert(chunks_of(s) =~= seq![head] + chunks_of(tail));
        assert((seq![head] + chunks_of(tail)).flatten() =~= head + chunks_of(tail).flatten()) by {
            vstd::seq_lib::lemma_flatten_concat(seq![head], chunks_of(tail));
            let single = seq![head];
            assert(single.drop_first() =~= Seq::<Seq<char>>::empty());
            assert(Seq::<Seq<char>>::empty().flatten() =~= Seq::<char>::empty());
            assert(single.flatten() =~= head + single.drop_first().flatten());
            assert(single.flatten() =~= head);
        }
    }
}

/// `c` splits at `j` into a newline-free prefix and an all-newline suffix.
pub open spec fn splits_at(c: Seq<char>, j: int) -> bool {
    &&& 0 <= j <= c.len()
    &&& forall|x: int| 0 <= x < j ==> c[x] != '\n'
    &&& forall|x: int| j <= x < c.len() ==> c[x] == '\n'
}

/// A chunk is never empty, and it never puts a newline before a
/// non-newline: it is a non-newline run followed by a newline run,
/// either of which may be empty.
pub open spec fn chunk_shape(c: Seq<char>) -> bool {
    &&& c.len() > 0
    &&& exists|j: int| #[trigger] splits_at(c, j)
}

/// Every chunk of any text has the chunk shape.
pub proof fn lemma_chunks_shape(s: Seq<char>)
    ensures
        forall|k: int| 0 <= k < chunks_of(s).len() ==> #[trigger] chunk_shape(chunks_of(s)[k]),
    decreases s.len(),
{
    if s.len() > 0 {
        let e = first_chunk_end(s);
        let m = non_newline_end(s, 0);
        lemma_non_newline_end_bounds(s, 0);
        lemma_newline_end_bounds(s, m);
        let head = s.subrange(0, e);
        assert(chunk_shape(head)) by {
            assert(splits_at(head, m));
        }
        lemma_chunks_shape(s.skip(e));
        assert forall|k: int| 0 <= k < chunks_of(s).len() implies #[trigger] chunk_shape(
            chunks_of(s)[k],
        ) by {
            if k > 0 {
                assert(chunks_of(s)[k] == chunks_of(s.skip(e))[k - 1]);
            }
        }
    }
}

proof fn lemma_non_newline_end_skip(s: Seq<char>, a: int, i: int)
    requires
        0 <= a <= i <= s.len(),
    ensures
        non_newline_end(s.skip(a), i - a) == non_newline_end(s, i) - a,
    decreases s.len() - i,
{
    if i < s.len() && s[i] != '\n' {
        lemma_non_newline_end_skip(s, a, i + 1);
    }
}

proof fn lemma_newline_end_skip(s: Seq<char>, a: int, i: int)
    requires
        0 <= a <= i <= s.len(),
    ensures
        newline_end(s.skip(a), i - a) == newline_end(s, i) - a,
    decreases s.len() - i,
{
    if i < s.len() && s[i] == '\n' {
        lemma_newline_end_skip(s, a, i + 1);
    }
}

proof fn lemma_chain_non_newline(s: Seq<char>, a: int, b: int)
    requires
        0 <= a <= b <= s.len(),
        forall|j: int| a <= j < b ==> s[j] != '\n',
    ensures
        non_newline_end(s, a) == non_newline_end(s, b),
    decreases b - a,
{
    if a < b {
        lemma_chain_non_newline(s, a + 1, b);
    }
}

proof fn lemma_chain_newline(s: Seq<char>, a: int, b: int)
    requires
        0 <= a <= b <= s.len(),
        forall|j: int| a <= j < b ==> s[j] == '\n',
    ensures
        newline_end(s, a) == newline_end(s, b),
    decreases b - a,
{
    if a < b {
        lemma_chain_newline(s, a + 1, b);
    }
}

/// Split `text` into chunks: each maximal non-newline run keeps the
/// newline run that follows it, and empty input yields no chunks.
pub fn chunk(text: &str) -> (r: Vec<String>)
    ensures
        r@.map_values(|c: String| c@) =~= chunks_of(text@),
{
    let n = text.unicode_len();
    let mut out: Vec<String> = Vec::new();
    let mut i: usize = 0;
    proof {
        assert(text@.skip(0) =~= text@);
    }
    while i < n
        invariant
            0 <= i <= n,
            n == text@.len(),
            out@.map_values(|c: String| c@) + chunks_of(text@.skip(i as int)) =~= chunks_of(
                text@,
            ),
        decreases n - i,
    {
        let ghost s = text@;
        let ghost rest = s.skip(i as int);
        let ghost prev = out@.map_values(|c: String| c@);
        let start = i;
        while i < n && text.get_char(i) != '\n'
            invariant
                start <= i <= n,
                n == text@.len(),
                forall|j: int| start <= j < i ==> text@[j] != '\n',
            decreases n - i,
        {
            i = i + 1;
        }
        proof {
            lemma_chain_non_newline(s, start as int, i as int);
            assert(non_newline_end(s, start as int) == i as int);
        }
        let ghost mid = i as int;
        while i < n && text.get_char(i) == '\n'
            invariant
                mid <= i <= n,
                n == text@.len(),
                forall|j: int| mid <= j < i ==> text@[j] == '\n',
            decreases n - i,
        {
            i = i + 1;
        }
        proof {
            lemma_chain_newline(s, mid, i as int);
            assert(newline_end(s, mid) == i as int);
        }
        let piece = text.substring_char(start, i);
        out.push(piece.to_owned());
        proof {
            lemma_non_newline_end_skip(s, start as int, start as int);
            lemma_newline_end_skip(s, start as int, mid);
            assert(first_chunk_end(rest) == i - start);
            lemma_first_chunk_end_bounds(rest);
            assert(rest.subrange(0, i - start) =~= s.subrange(start as int, i as int));
            assert(rest.skip(i - start) =~= s.skip(i as int));
            assert(chunks_of(rest) =~= seq![s.subrange(start as int, i as int)] + chunks_of(
                s.skip(i as int),
            ));
            assert(out@.map_values(|c: String| c@) =~= prev.push(piece@));
            assert(out@.map_values(|c: String| c@) + chunks_of(s.skip(i as int)) =~= chunks_of(
                s,
            ));
        }
    }
    proof {
        assert(chunks_of(text@.skip(n as int)) =~= Seq::<Seq<char>>::empty());
        assert(out@.map_values(|c: String| c@) =~= chunks_of(text@));
    }
    out
}

/// Flattening after appending one more sequence appends its elements.
pub proof fn lemma_flatten_push<A>(s: Seq<Seq<A>>, x: Seq<A>)
    ensures
        s.push(x).flatten() =~= s.flatten() + x,
{
    vstd::seq_lib::lemma_flatten_concat(s, seq![x]);
    let single = seq![x];
    assert(single.drop_first() =~= Seq::<Seq<A>>::empty());
    assert(Seq::<Seq<A>>::empty().flatten() =~= Seq::<A>::empty());
    assert(single.flatten() =~= x + single.drop_first().flatten());
    assert(s.push(x) =~= s + single);
    assert((s + single).flatten() =~= s.flatten() + single.flatten());
}

} // verus!
