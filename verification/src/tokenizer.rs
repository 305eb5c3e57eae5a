//! The tokenizer facade: normalization, chunking, per-chunk
//! segmentation and id lookup for encoding, and the inverse id-to-bytes
//! walk for decoding.

use vstd::prelude::*;
use vstd::string::*;
use vstd::utf8::encode_utf8;
use vstd::utf8::decode_utf8;
use vstd::utf8::valid_utf8;

use unic_normal::StrNormalForm;

use crate::chunker::chunk;
use crate::chunker::chunks_of;
use crate::chunker::lemma_flatten_push;
use crate::error::Error;
use crate::matcher::MatchSpan;
use crate::matcher::build_automaton;
use crate::matcher::find_overlapping;
use crate::matcher::automaton_patterns;
use crate::matcher::automaton_standard;
use crate::matcher::lemma_matcher_output_unique;
use crate::matcher::matcher_output_ok;
use crate::matcher::matches_end_sorted;
use crate::matcher::span_lt;
use crate::matcher::the_matches;
use crate::segment::bt;
use crate::segment::dp_routes;
use crate::segment::dp_scores;
use crate::segment::matches_in_bounds;
use crate::segment::path_ok;
use crate::segment::viterbi_decode;
use crate::segment::viterbi_sample;
use crate::segment::weights_in_range;
use crate::vocab::RawEntry;
use crate::vocab::Vocabulary;
use crate::vocab::bytes_clone;
use crate::vocab::raw_vocab_ok;

verus! {

/// What canonical (NFC) normalization turns a text into: a canonically
/// equivalent text, the same for the same input, every time.
pub uninterp spec fn nfc_of(s: Seq<char>) -> Seq<char>;

/// Relies on unic_normal's `StrNormalForm::nfc`: Unicode canonical
/// decomposition followed by canonical composition, a pure function of
/// the characters; the empty text stays empty.
#[verifier::external_body]
fn normalize_nfc(text: &str) -> (r: String)
    ensures
        r@ == nfc_of(text@),
        text@.len() == 0 ==> r@.len() == 0,
{
    text.nfc().collect()
}

/// Relies on `str::from_utf8`: `Ok` exactly on valid UTF-8, yielding
/// the decoded characters of the bytes.
#[verifier::external_body]
fn utf8_to_string(b: &Vec<u8>) -> (r: Option<String>)
    ensures
        r is Some <==> valid_utf8(b@),
        r matches Some(s) ==> s@ == decode_utf8(b@),
{
    match core::str::from_utf8(b.as_slice()) {
        Ok(s) => Some(s.to_owned()),
        Err(_) => None,
    }
}

/// The text a single token's bytes contribute to a decoded string:
/// their UTF-8 decoding, or nothing when they are not valid UTF-8 on
/// their own (such bytes are skipped, never an error).
pub open spec fn token_text(b: Seq<u8>) -> Seq<char> {
    if valid_utf8(b) {
        decode_utf8(b)
    } else {
        Seq::empty()
    }
}

/// The tokenizer: an immutable vocabulary and the matcher automaton
/// built over its tokens.
pub struct Tokenizer {
    pub vocab: Vocabulary,
    pub automaton: Option<aho_corasick::AhoCorasick>,
}

impl Tokenizer {
    /// The pattern set the matcher searches for.
    pub open spec fn pats(&self) -> Seq<Seq<u8>> {
        self.vocab.spec_tokens()
    }

    /// The weight of each pattern.
    pub open spec fn w(&self) -> Seq<i64> {
        self.vocab.spec_scores()
    }

    /// Everything construction establishes and every operation keeps.
    pub open spec fn wf(&self) -> bool {
        &&& self.vocab.wf()
        &&& (self.automaton matches Some(ac) ==> automaton_patterns(ac) == self.pats()
            && automaton_standard(ac))
    }

    /// Whether a model has been loaded (an automaton exists).
    pub open spec fn is_loaded(&self) -> bool {
        self.automaton is Some
    }

    /// The segmentation the deterministic pass picks for a byte span.
    pub open spec fn spec_chunk_path(&self, b: Seq<u8>) -> Seq<MatchSpan> {
        let ms = the_matches(self.pats(), b);
        bt(dp_routes(ms, self.w(), b.len() as int, ms.len() as int), b.len() as int, b.len() as nat)
    }

    /// Whether a byte span can be segmented at all.
    pub open spec fn spec_chunk_ok(&self, b: Seq<u8>) -> bool {
        let ms = the_matches(self.pats(), b);
        dp_scores(ms, self.w(), b.len() as int, ms.len() as int)[b.len() as int] is Some
    }

    /// The ids the deterministic pass emits for a byte span.
    pub open spec fn spec_chunk_ids(&self, b: Seq<u8>) -> Seq<usize> {
        self.spec_ids_of(self.spec_chunk_path(b))
    }

    /// The ids a segmentation maps to, token by token.
    pub open spec fn spec_ids_of(&self, path: Seq<MatchSpan>) -> Seq<usize> {
        path.map_values(|m: MatchSpan| self.vocab.spec_ids()[m.pid as int])
    }

    /// Every chunk of a text can be segmented.
    pub open spec fn spec_text_ok(&self, chars: Seq<char>) -> bool {
        forall|k: int|
            0 <= k < chunks_of(chars).len() ==> self.spec_chunk_ok(
                encode_utf8(#[trigger] chunks_of(chars)[k]),
            )
    }

    /// The ids the deterministic pass emits for a whole text: each
    /// chunk's ids, concatenated in chunk order.
    pub open spec fn spec_tokenize_text(&self, chars: Seq<char>) -> Seq<usize> {
        chunks_of(chars).map_values(|c: Seq<char>| self.spec_chunk_ids(encode_utf8(c))).flatten()
    }

    /// The text a sequence of ids decodes to.
    pub open spec fn spec_decode(&self, ids: Seq<usize>) -> Seq<char> {
        ids.map_values(|id: usize| token_text(self.vocab.spec_token_of_id(id as int))).flatten()
    }

    /// Every id is known to the vocabulary.
    pub open spec fn spec_ids_known(&self, ids: Seq<usize>) -> bool {
        forall|i: int| 0 <= i < ids.len() ==> self.vocab.spec_id_known(#[trigger] ids[i] as int)
    }

    /// A tokenizer with no model: an empty vocabulary and no automaton.
    /// Nothing can be tokenized with it; it exists so a host can hold a
    /// placeholder before loading a model.
    pub fn init_empty() -> (r: Tokenizer)
        ensures
            r.wf(),
            !r.is_loaded(),
            r.vocab.entries@.len() == 0,
    {
        let raw: Vec<RawEntry> = Vec::new();
        match Vocabulary::build(&raw) {
            Ok(vocab) => Tokenizer { vocab, automaton: None },
            Err(_) => {
                proof {
                    assert(raw_vocab_ok(raw@));
                    assert(false);
                }
                Tokenizer { vocab: Vocabulary { entries: Vec::new(), id_tokens: Vec::new() }, automaton: None }
            },
        }
    }

    /// Build a tokenizer from raw model entries: validate them into a
    /// vocabulary, then build the matcher automaton over its tokens.
    /// Rejects bad model data with `ModelFormatError` (exactly when the
    /// raw entries are unacceptable) and a failed automaton
    /// construction with `PatternBuildError`.
    pub fn new(raw: &Vec<RawEntry>) -> (r: Result<Tokenizer, Error>)
        ensures
            r == Err::<Tokenizer, Error>(Error::ModelFormatError) <==> !raw_vocab_ok(raw@),
            r matches Err(e) ==> e == Error::ModelFormatError || e == Error::PatternBuildError,
            r matches Ok(t) ==> {
                &&& t.wf()
                &&& t.is_loaded()
                &&& t.vocab.entries@.len() == raw@.len()
                &&& forall|j: int|
                    0 <= j < raw@.len() ==> {
                        let e = #[trigger] t.vocab.entries@[j];
                        &&& e.token@ == crate::vocab::raw_token(raw@[j])
                        &&& e.id == raw@[j].id
                        &&& e.score == raw@[j].score
                    }
            },
    {
        let vocab = match Vocabulary::build(raw) {
            Ok(v) => v,
            Err(e) => {
                return Err(e);
            },
        };
        let n = vocab.entries.len();
        let mut patterns: Vec<Vec<u8>> = Vec::new();
        let mut j: usize = 0;
        while j < n
            invariant
                j <= n,
                n == vocab.entries@.len(),
                patterns@.len() == j,
                forall|x: int|
                    0 <= x < j ==> (#[trigger] patterns@[x])@ == vocab.entries@[x].token@,
            decreases n - j,
        {
            patterns.push(bytes_clone(&vocab.entries[j].token));
            j = j + 1;
        }
        proof {
            assert(patterns@.map_values(|p: Vec<u8>| p@) =~= vocab.spec_tokens());
        }
        let ac = match build_automaton(&patterns) {
            Ok(ac) => ac,
            Err(e) => {
                return Err(e);
            },
        };
        Ok(Tokenizer { vocab, automaton: Some(ac) })
    }

    /// The scores of all patterns, in pattern order.
    fn weights(&self) -> (r: Vec<i64>)
        requires
            self.wf(),
        ensures
            r@ == self.w(),
    {
        let n = self.vocab.entries.len();
        let mut r: Vec<i64> = Vec::new();
        let mut j: usize = 0;
        while j < n
            invariant
                j <= n,
                n == self.vocab.entries@.len(),
                r@.len() == j,
                forall|x: int| 0 <= x < j ==> r@[x] == self.vocab.entries@[x].score,
            decreases n - j,
        {
            r.push(self.vocab.entries[j].score);
            j = j + 1;
        }
        proof {
            assert(r@ =~= self.w());
        }
        r
    }

    /// All vocabulary-token occurrences in a byte span, every one of
    /// them, ordered by end position then start position.
    pub fn find_matches(&self, bytes: &Vec<u8>) -> (r: Vec<MatchSpan>)
        requires
            self.wf(),
            self.is_loaded(),
        ensures
            matcher_output_ok(self.pats(), bytes@, r@),
            r@ == the_matches(self.pats(), bytes@),
            matches_in_bounds(r@, bytes@.len() as int, self.pats().len() as int),
            matches_end_sorted(r@),
    {
        proof {
            self.lemma_pats_distinct();
        }
        match &self.automaton {
            Some(ac) => {
                let r = find_overlapping(ac, bytes);
                proof {
                    assert forall|i: int, j: int| 0 <= i < j < r@.len() implies (
                    #[trigger] r@[i]).end <= (#[trigger] r@[j]).end by {
                        assert(span_lt(r@[i], r@[j]));
                    }
                    lemma_matcher_output_unique(self.pats(), bytes@, r@);
                }
                r
            },
            None => {
                proof {
                    assert(false);
                }
                Vec::new()
            },
        }
    }

    /// The vocabulary's tokens are pairwise distinct and non-empty.
    pub proof fn lemma_pats_distinct(&self)
        requires
            self.wf(),
        ensures
            self.pats().no_duplicates(),
            forall|p: int| 0 <= p < self.pats().len() ==> (#[trigger] self.pats()[p]).len() > 0,
            self.pats().len() == self.w().len(),
    {
        assert forall|i: int, j: int|
            0 <= i < self.pats().len() && 0 <= j < self.pats().len() && i != j implies self.pats()[i]
            != self.pats()[j] by {
            assert(self.pats()[i] == self.vocab.entries@[i].token@);
            assert(self.pats()[j] == self.vocab.entries@[j].token@);
        }
        assert forall|p: int|
            0 <= p < self.pats().len() implies (#[trigger] self.pats()[p]).len() > 0 by {
            assert(self.pats()[p] == self.vocab.entries@[p].token@);
        }
    }

    /// Deterministically segment one byte span and hand back the ids of
    /// the chosen tokens.  Fails exactly when no chain of vocabulary
    /// tokens covers the whole span.
    pub fn tokenize_bytes(&self, bytes: &Vec<u8>) -> (r: Result<Vec<usize>, Error>)
        requires
            self.wf(),
            self.is_loaded(),
        ensures
            r is Ok <==> self.spec_chunk_ok(bytes@),
            r matches Ok(ids) ==> ids@ == self.spec_chunk_ids(bytes@),
            r matches Err(e) ==> e == Error::UnsegmentableInputError,
    {
        let ms = self.find_matches(bytes);
        let w = self.weights();
        proof {
            self.lemma_pats_distinct();
            assert(weights_in_range(w@)) by {
                assert forall|p: int|
                    0 <= p < w@.len() implies crate::vocab::SCORE_MIN <= #[trigger] w@[p]
                    <= 0 by {
                    assert(w@[p] == self.vocab.entries@[p].score);
                }
            }
        }
        let path = match viterbi_decode(bytes.len(), &ms, &w) {
            Ok(p) => p,
            Err(e) => {
                return Err(e);
            },
        };
        let ids = self.ids_of_path(&ms, &path);
        Ok(ids)
    }

    /// Map a segmentation to its token ids.
    fn ids_of_path(&self, ms: &Vec<MatchSpan>, path: &Vec<MatchSpan>) -> (r: Vec<usize>)
        requires
            self.wf(),
            matches_in_bounds(ms@, usize::MAX as int, self.pats().len() as int),
            forall|i: int| 0 <= i < path@.len() ==> ms@.contains(#[trigger] path@[i]),
        ensures
            r@ == self.spec_ids_of(path@),
    {
        let n = path.len();
        let mut r: Vec<usize> = Vec::new();
        let mut k: usize = 0;
        while k < n
            invariant
                k <= n,
                n == path@.len(),
                self.wf(),
                matches_in_bounds(ms@, usize::MAX as int, self.pats().len() as int),
                forall|i: int| 0 <= i < path@.len() ==> ms@.contains(#[trigger] path@[i]),
                r@.len() == k,
                forall|x: int|
                    0 <= x < k ==> r@[x] == self.vocab.spec_ids()[path@[x].pid as int],
            decreases n - k,
        {
            let m = path[k];
            proof {
                assert(ms@.contains(m));
                let i = choose|i: int| 0 <= i < ms@.len() && ms@[i] == m;
                assert(ms@[i].pid < self.pats().len());
            }
            r.push(self.vocab.entries[m.pid].id);
            k = k + 1;
        }
        proof {
            assert(r@ =~= self.spec_ids_of(path@));
        }
        r
    }

    /// Segment one byte span by replaying externally drawn accept
    /// decisions, one per reported match.  Whatever the decisions, a
    /// successful result is a chain of vocabulary-token occurrences
    /// covering the span exactly; it fails exactly when the
    /// deterministic pass would.
    pub fn sample_tokenize_bytes(&self, bytes: &Vec<u8>, choices: &Vec<bool>) -> (r: Result<
        Vec<usize>,
        Error,
    >)
        requires
            self.wf(),
            self.is_loaded(),
        ensures
            r is Ok <==> self.spec_chunk_ok(bytes@),
            r matches Ok(ids) ==> exists|path: Seq<MatchSpan>|
                path_ok(the_matches(self.pats(), bytes@), bytes@.len() as int, path) && ids@
                    == self.spec_ids_of(path),
            r matches Err(e) ==> e == Error::UnsegmentableInputError,
    {
        let ms = self.find_matches(bytes);
        proof {
            crate::segment::lemma_reach_scores(
                ms@,
                self.w(),
                bytes@.len() as int,
                ms@.len() as int,
            );
        }
        let path = match viterbi_sample(bytes.len(), &ms, choices) {
            Ok(p) => p,
            Err(e) => {
                return Err(e);
            },
        };
        let ids = self.ids_of_path(&ms, &path);
        proof {
            assert(path_ok(the_matches(self.pats(), bytes@), bytes@.len() as int, path@));
        }
        Ok(ids)
    }

    /// Tokenize a text: optionally normalize it, split it into chunks,
    /// segment each chunk independently, and concatenate the ids in
    /// chunk order.  Fails exactly when some chunk cannot be segmented.
    pub fn tokenize(&self, text: &str, norm: bool) -> (r: Result<Vec<usize>, Error>)
        requires
            self.wf(),
            self.is_loaded(),
        ensures
            ({
                let chars = if norm {
                    nfc_of(text@)
                } else {
                    text@
                };
                &&& (r is Ok <==> self.spec_text_ok(chars))
                &&& (r matches Ok(ids) ==> ids@ == self.spec_tokenize_text(chars))
            }),
            r matches Err(e) ==> e == Error::UnsegmentableInputError,
            text@.len() == 0 ==> (r matches Ok(ids) && ids@.len() == 0),
    {
        let base: String = if norm {
            normalize_nfc(text)
        } else {
            text.to_owned()
        };
        let ghost chars = base@;
        let pieces = chunk(base.as_str());
        let ghost cs = chunks_of(chars);
        let ghost mapped = cs.map_values(|c: Seq<char>| self.spec_chunk_ids(encode_utf8(c)));
        let n = pieces.len();
        let mut out: Vec<usize> = Vec::new();
        let mut i: usize = 0;
        proof {
            if chars.len() == 0 {
                assert(cs =~= Seq::<Seq<char>>::empty());
                assert(pieces@.map_values(|c: String| c@).len() == 0);
            }
        }
        while i < n
            invariant
                i <= n,
                self.wf(),
                self.is_loaded(),
                chars == (if norm {
                    nfc_of(text@)
                } else {
                    text@
                }),
                text@.len() == 0 ==> chars.len() == 0,
                n == pieces@.len(),
                pieces@.map_values(|c: String| c@) =~= cs,
                cs == chunks_of(chars),
                mapped == cs.map_values(|c: Seq<char>| self.spec_chunk_ids(encode_utf8(c))),
                forall|k: int| 0 <= k < i ==> self.spec_chunk_ok(encode_utf8(cs[k])),
                out@ =~= mapped.take(i as int).flatten(),
            decreases n - i,
        {
            let piece = &pieces[i];
            let bytes = piece.as_str().as_bytes_vec();
            proof {
                assert(piece@ == cs[i as int]);
                assert(bytes@ == encode_utf8(cs[i as int]));
            }
            let mut ids = match self.tokenize_bytes(&bytes) {
                Ok(ids) => ids,
                Err(e) => {
                    proof {
                        assert(!self.spec_chunk_ok(encode_utf8(cs[i as int])));
                    }
                    return Err(e);
                },
            };
            proof {
                assert(ids@ == mapped[i as int]);
                lemma_flatten_push(mapped.take(i as int), mapped[i as int]);
                assert(mapped.take(i as int).push(mapped[i as int]) =~= mapped.take(i + 1));
            }
            out.append(&mut ids);
            i = i + 1;
        }
        proof {
            assert(mapped.take(n as int) =~= mapped);
        }
        Ok(out)
    }

    /// Encode a text into token ids, optionally wrapped in the
    /// beginning- and end-of-sequence markers (ids 1 and 2).  The empty
    /// text yields exactly the requested markers and nothing else.
    pub fn encode(&self, text: &str, add_bos: bool, add_eos: bool, norm: bool) -> (r: Result<
        Vec<usize>,
        Error,
    >)
        requires
            self.wf(),
            self.is_loaded(),
        ensures
            ({
                let chars = if norm {
                    nfc_of(text@)
                } else {
                    text@
                };
                &&& (r is Ok <==> self.spec_text_ok(chars))
                &&& (r matches Ok(ids) ==> ids@ == with_markers(
                    self.spec_tokenize_text(chars),
                    add_bos,
                    add_eos,
                ))
            }),
            r matches Err(e) ==> e == Error::UnsegmentableInputError,
            text@.len() == 0 ==> (r matches Ok(ids) && ids@ == with_markers(
                Seq::<usize>::empty(),
                add_bos,
                add_eos,
            )),
    {
        let mut ids = match self.tokenize(text, norm) {
            Ok(ids) => ids,
            Err(e) => {
                return Err(e);
            },
        };
        if add_bos {
            ids.insert(0, 1);
        }
        if add_eos {
            ids.push(2);
        }
        proof {
            let chars = if norm {
                nfc_of(text@)
            } else {
                text@
            };
            assert(ids@ =~= with_markers(self.spec_tokenize_text(chars), add_bos, add_eos));
            if text@.len() == 0 {
                assert(ids@ =~= with_markers(Seq::<usize>::empty(), add_bos, add_eos));
            }
        }
        Ok(ids)
    }

    /// Decode token ids back into text: look every id up, concatenate
    /// the token bytes' UTF-8 decodings, silently skipping tokens whose
    /// bytes are not valid UTF-8 on their own.  Fails exactly when some
    /// id is unknown to the vocabulary.
    pub fn decode(&self, token_ids: Vec<usize>) -> (r: Result<String, Error>)
        requires
            self.wf(),
        ensures
            r is Ok <==> self.spec_ids_known(token_ids@),
            r matches Ok(s) ==> s@ == self.spec_decode(token_ids@),
            r matches Err(e) ==> e == Error::UnknownTokenIdError,
    {
        let ghost mapped = token_ids@.map_values(
            |id: usize| token_text(self.vocab.spec_token_of_id(id as int)),
        );
        let n = token_ids.len();
        let mut out = String::new();
        let mut i: usize = 0;
        while i < n
            invariant
                i <= n,
                self.wf(),
                n == token_ids@.len(),
                mapped == token_ids@.map_values(
                    |id: usize| token_text(self.vocab.spec_token_of_id(id as int)),
                ),
                forall|k: int| 0 <= k < i ==> self.vocab.spec_id_known(#[trigger] token_ids@[k] as int),
                out@ =~= mapped.take(i as int).flatten(),
            decreases n - i,
        {
            let id = token_ids[i];
            let b = match self.vocab.lookup_bytes(id) {
                Some(b) => b,
                None => {
                    proof {
                        assert(!self.vocab.spec_id_known(token_ids@[i as int] as int));
                    }
                    return Err(Error::UnknownTokenIdError);
                },
            };
            proof {
                lemma_flatten_push(mapped.take(i as int), mapped[i as int]);
                assert(mapped.take(i as int).push(mapped[i as int]) =~= mapped.take(i + 1));
            }
            match utf8_to_string(&b) {
                Some(s) => {
                    out.append(s.as_str());
                },
                None => {
                    proof {
                        assert(mapped[i as int] =~= Seq::<char>::empty());
                        assert(out@ =~= mapped.take(i + 1).flatten());
                    }
                },
            }
            i = i + 1;
        }
        proof {
            assert(mapped.take(n as int) =~= mapped);
        }
        Ok(out)
    }
}

/// Token ids wrapped in the requested sequence markers.
pub open spec fn with_markers(ids: Seq<usize>, add_bos: bool, add_eos: bool) -> Seq<usize> {
    let front = if add_bos {
        seq![1usize]
    } else {
        Seq::empty()
    };
    let back = if add_eos {
        seq![2usize]
    } else {
        Seq::empty()
    };
    front + ids + back
}

/// Normalize a text and split it into chunks, in one step.
pub fn normalize(text: &str) -> (r: Vec<String>)
    ensures
        r@.map_values(|c: String| c@) =~= chunks_of(nfc_of(text@)),
{
    let normalized = normalize_nfc(text);
    chunk(normalized.as_str())
}

} // verus!
