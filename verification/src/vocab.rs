//! The vocabulary: byte-sequence tokens with ids and log-probability
//! scores.
//!
//! Raw model entries arrive as base64 keys with an id and a fixed-point
//! score; a single build validates everything and produces an immutable
//! table.  Ids 0, 1 and 2 are reserved for the special tokens
//! `<pad>`, `<bos>` and `<eos>`.

use vstd::prelude::*;

use base64::Engine;

use crate::error::Error;

verus! {

/// Scores are log-probabilities scaled to integers; anything below this
/// (or above zero) is rejected at load time, which in turn bounds every
/// sum the segmenter can form.
pub const SCORE_MIN: i64 = -0x100_0000_0000;

/// One raw vocabulary entry as the model loader hands it in: the token
/// bytes as a standard-base64 key, the dense id, and the token's
/// log-probability score scaled to an integer.
#[derive(Debug)]
pub struct RawEntry {
    pub key: String,
    pub id: usize,
    pub score: i64,
}

/// One validated vocabulary entry.
#[derive(Debug)]
pub struct VocabEntry {
    pub token: Vec<u8>,
    pub id: usize,
    pub score: i64,
}

/// What base64 decoding of a key yields: bytes exactly when the key is
/// valid standard base64.  The result depends on the key text alone.
pub uninterp spec fn b64_decode_of(key: Seq<char>) -> Option<Seq<u8>>;

/// Relies on base64's `Engine::decode` with the standard alphabet: a
/// pure function of the key, `Ok` exactly on valid standard base64.
#[verifier::external_body]
fn b64_decode(key: &str) -> (r: Option<Vec<u8>>)
    ensures
        r is Some <==> b64_decode_of(key@) is Some,
        r matches Some(v) ==> b64_decode_of(key@) == Some(v@),
{
    match base64::engine::general_purpose::STANDARD.decode(key) {
        Ok(v) => Some(v),
        Err(_) => None,
    }
}

/// The reserved special tokens, by id.
pub open spec fn special_bytes(k: int) -> Seq<u8> {
    if k == 0 {
        seq![60u8, 112u8, 97u8, 100u8, 62u8]  // <pad>
    } else if k == 1 {
        seq![60u8, 98u8, 111u8, 115u8, 62u8]  // <bos>
    } else {
        seq![60u8, 101u8, 111u8, 115u8, 62u8]  // <eos>
    }
}

pub(crate) fn special_token(k: usize) -> (r: Vec<u8>)
    requires
        k < 3,
    ensures
        r@ == special_bytes(k as int),
{
    if k == 0 {
        vec![60u8, 112u8, 97u8, 100u8, 62u8]
    } else if k == 1 {
        vec![60u8, 98u8, 111u8, 115u8, 62u8]
    } else {
        vec![60u8, 101u8, 111u8, 115u8, 62u8]
    }
}

/// The token bytes a raw entry decodes to (meaningful only when the key
/// is valid base64).
pub open spec fn raw_token(e: RawEntry) -> Seq<u8> {
    b64_decode_of(e.key@)->0
}

/// One raw entry in isolation is acceptable: its key decodes, the token
/// is non-empty, its id is a dense non-special index, and its score is a
/// representable log-probability.
pub open spec fn raw_entry_ok(e: RawEntry, n: int) -> bool {
    &&& b64_decode_of(e.key@) is Some
    &&& raw_token(e).len() > 0
    &&& 3 <= e.id < n + 3
    &&& SCORE_MIN <= e.score <= 0
}

/// A whole raw vocabulary is acceptable: every entry in isolation, no id
/// used twice, no token spelled twice.
pub open spec fn raw_vocab_ok(raw: Seq<RawEntry>) -> bool {
    &&& raw.len() + 3 <= usize::MAX
    &&& forall|j: int| 0 <= j < raw.len() ==> raw_entry_ok(#[trigger] raw[j], raw.len() as int)
    &&& forall|j: int, k: int| 0 <= j < k < raw.len() ==> raw[j].id != raw[k].id
    &&& forall|j: int, k: int|
        0 <= j < k < raw.len() ==> raw_token(raw[j]) != raw_token(raw[k])
}

/// The fixed, immutable token table.
pub struct Vocabulary {
    /// The model entries in load order; their tokens are the matcher's
    /// pattern set, in the same order.
    pub entries: Vec<VocabEntry>,
    /// Dense id-indexed table: the three specials, then every entry's
    /// token at its id.
    pub id_tokens: Vec<Option<Vec<u8>>>,
}

impl Vocabulary {
    /// The pattern set: every entry's token, in load order.
    pub open spec fn spec_tokens(&self) -> Seq<Seq<u8>> {
        self.entries@.map_values(|e: VocabEntry| e.token@)
    }

    /// Entry scores, in load order.
    pub open spec fn spec_scores(&self) -> Seq<i64> {
        self.entries@.map_values(|e: VocabEntry| e.score)
    }

    /// Entry ids, in load order.
    pub open spec fn spec_ids(&self) -> Seq<usize> {
        self.entries@.map_values(|e: VocabEntry| e.id)
    }

    /// Whether `id` maps to some token bytes (special or loaded).
    pub open spec fn spec_id_known(&self, id: int) -> bool {
        0 <= id < self.id_tokens@.len() && self.id_tokens@[id] is Some
    }

    /// The token bytes an id maps to.
    pub open spec fn spec_token_of_id(&self, id: int) -> Seq<u8> {
        self.id_tokens@[id]->0@
    }

    /// Everything the rest of the library relies on: the dense table and
    /// the entry list agree, ids and tokens are unique, tokens are
    /// non-empty and scores representable.
    pub open spec fn wf(&self) -> bool {
        &&& self.id_tokens@.len() == self.entries@.len() + 3
        &&& forall|k: int|
            0 <= k < 3 ==> ((#[trigger] self.id_tokens@[k]) matches Some(t) && t@
                == special_bytes(k))
        &&& forall|j: int|
            0 <= j < self.entries@.len() ==> {
                let e = #[trigger] self.entries@[j];
                &&& 3 <= e.id < self.id_tokens@.len()
                &&& e.token@.len() > 0
                &&& SCORE_MIN <= e.score <= 0
                &&& self.id_tokens@[e.id as int] matches Some(t) && t@ == e.token@
            }
        &&& forall|j: int, k: int|
            0 <= j < k < self.entries@.len() ==> self.entries@[j].id != self.entries@[k].id
        &&& forall|j: int, k: int|
            0 <= j < k < self.entries@.len() ==> self.entries@[j].token@
                != self.entries@[k].token@
    }

    /// Build the vocabulary from raw model entries.  Succeeds exactly
    /// when the raw data is acceptable; on success the entry list mirrors
    /// the raw list (decoded token, id, score, in order) and the dense
    /// table holds the three specials plus each token at its id.
    pub fn build(raw: &Vec<RawEntry>) -> (r: Result<Vocabulary, Error>)
        ensures
            r is Ok <==> raw_vocab_ok(raw@),
            r matches Err(e) ==> e == Error::ModelFormatError,
            r matches Ok(v) ==> {
                &&& v.wf()
                &&& v.entries@.len() == raw@.len()
                &&& forall|j: int|
                    0 <= j < raw@.len() ==> {
                        let e = #[trigger] v.entries@[j];
                        &&& e.token@ == raw_token(raw@[j])
                        &&& e.id == raw@[j].id
                        &&& e.score == raw@[j].score
                    }
            },
    {
        let n = raw.len();
        if n > usize::MAX - 3 {
            return Err(Error::ModelFormatError);
        }
        let mut id_tokens: Vec<Option<Vec<u8>>> = Vec::new();
        let mut k: usize = 0;
        while k < 3
            invariant
                k <= 3,
                id_tokens@.len() == k,
                forall|x: int|
                    0 <= x < k ==> ((#[trigger] id_tokens@[x]) matches Some(t) && t@
                        == special_bytes(x)),
            decreases 3 - k,
        {
            id_tokens.push(Some(special_token(k)));
            k = k + 1;
        }
        let mut k: usize = 0;
        while k < n
            invariant
                k <= n,
                id_tokens@.len() == k + 3,
                forall|x: int|
                    0 <= x < 3 ==> ((#[trigger] id_tokens@[x]) matches Some(t) && t@
                        == special_bytes(x)),
                forall|x: int| 3 <= x < k + 3 ==> (#[trigger] id_tokens@[x]) is None,
            decreases n - k,
        {
            id_tokens.push(None);
            k = k + 1;
        }
        let mut entries: Vec<VocabEntry> = Vec::new();
        let mut j: usize = 0;
        while j < n
            invariant
                j <= n,
                n == raw@.len(),
                n + 3 <= usize::MAX,
                entries@.len() == j,
                id_tokens@.len() == n + 3,
                forall|x: int|
                    0 <= x < 3 ==> ((#[trigger] id_tokens@[x]) matches Some(t) && t@
                        == special_bytes(x)),
                forall|x: int|
                    0 <= x < j ==> raw_entry_ok(#[trigger] raw@[x], n as int),
                forall|x: int|
                    0 <= x < j ==> {
                        let e = #[trigger] entries@[x];
                        &&& e.token@ == raw_token(raw@[x])
                        &&& e.id == raw@[x].id
                        &&& e.score == raw@[x].score
                    },
                forall|x: int|
                    3 <= x < n + 3 ==> ((#[trigger] id_tokens@[x]) is Some <==> exists|y: int|
                        0 <= y < j && entries@[y].id == x),
                forall|y: int|
                    0 <= y < j ==> ((#[trigger] id_tokens@[entries@[y].id as int])
                        matches Some(t) && t@ == entries@[y].token@),
                forall|x: int, y: int| 0 <= x < y < j ==> entries@[x].id != entries@[y].id,
                forall|x: int, y: int|
                    0 <= x < y < j ==> entries@[x].token@ != entries@[y].token@,
            decreases n - j,
        {
            let tok = match b64_decode(&raw[j].key) {
                Some(t) => t,
                None => {
                    return Err(Error::ModelFormatError);
                },
            };
            if tok.len() == 0 {
                return Err(Error::ModelFormatError);
            }
            let id = raw[j].id;
            if id < 3 || id >= n + 3 {
                return Err(Error::ModelFormatError);
            }
            let score = raw[j].score;
            if score > 0 || score < SCORE_MIN {
                return Err(Error::ModelFormatError);
            }
            if id_tokens[id].is_some() {
                proof {
                    let y = choose|y: int| 0 <= y < j && entries@[y].id == id as int;
                    assert(raw@[y].id == raw@[j as int].id);
                }
                return Err(Error::ModelFormatError);
            }
            if contains_token(&entries, &tok) {
                proof {
                    let y = choose|y: int|
                        0 <= y < j && entries@[y].token@ == tok@;
                    assert(raw_token(raw@[y]) == raw_token(raw@[j as int]));
                }
                return Err(Error::ModelFormatError);
            }
            let ghost idt0 = id_tokens@;
            let ghost ents0 = entries@;
            id_tokens[id] = Some(bytes_clone(&tok));
            entries.push(VocabEntry { token: tok, id, score });
            proof {
                assert forall|x: int|
                    3 <= x < n + 3 implies ((#[trigger] id_tokens@[x]) is Some <==> exists|y: int|
                        0 <= y < j + 1 && entries@[y].id == x) by {
                    if x == id as int {
                        assert(id_tokens@[x] is Some);
                        assert(entries@[j as int].id == x);
                    } else {
                        assert(id_tokens@[x] == idt0[x]);
                        if idt0[x] is Some {
                            let y = choose|y: int| 0 <= y < j && ents0[y].id == x;
                            assert(0 <= y < j && ents0[y].id == x);
                            assert(entries@[y].id == x);
                        }
                        if exists|y: int| 0 <= y < j + 1 && entries@[y].id == x {
                            let y = choose|y: int| 0 <= y < j + 1 && entries@[y].id == x;
                            assert(y != j);
                            assert(ents0[y].id == x);
                            assert(idt0[x] is Some);
                        }
                    }
                }
            }
            j = j + 1;
        }
        proof {
            assert forall|x: int, y: int|
                0 <= x < y < raw@.len() implies raw@[x].id != raw@[y].id by {
                assert(entries@[x].id == raw@[x].id);
                assert(entries@[y].id == raw@[y].id);
            }
            assert forall|x: int, y: int|
                0 <= x < y < raw@.len() implies raw_token(raw@[x]) != raw_token(raw@[y]) by {
                assert(entries@[x].token@ == raw_token(raw@[x]));
                assert(entries@[y].token@ == raw_token(raw@[y]));
            }
        }
        Ok(Vocabulary { entries, id_tokens })
    }

    /// The id a byte sequence maps to: the entry spelled that way if one
    /// was loaded, else a special token spelled that way, else nothing.
    pub open spec fn spec_lookup_id(&self, t: Seq<u8>) -> Option<usize> {
        if exists|j: int| 0 <= j < self.entries@.len() && self.entries@[j].token@ == t {
            let j = choose|j: int| 0 <= j < self.entries@.len() && self.entries@[j].token@ == t;
            Some(self.entries@[j].id)
        } else if t == special_bytes(0) {
            Some(0usize)
        } else if t == special_bytes(1) {
            Some(1usize)
        } else if t == special_bytes(2) {
            Some(2usize)
        } else {
            None
        }
    }

    /// Look a token up by its bytes.
    pub fn lookup_id(&self, t: &Vec<u8>) -> (r: Option<usize>)
        requires
            self.wf(),
        ensures
            r == self.spec_lookup_id(t@),
    {
        let n = self.entries.len();
        let mut j: usize = 0;
        while j < n
            invariant
                self.wf(),
                j <= n,
                n == self.entries@.len(),
                forall|x: int| 0 <= x < j ==> self.entries@[x].token@ != t@,
            decreases n - j,
        {
            if bytes_eq(&self.entries[j].token, t) {
                proof {
                    lemma_unique_token_index(self, t@, j as int);
                }
                return Some(self.entries[j].id);
            }
            j = j + 1;
        }
        let mut k: usize = 0;
        while k < 3
            invariant
                k <= 3,
                forall|x: int| 0 <= x < k ==> special_bytes(x) != t@,
                forall|x: int| 0 <= x < self.entries@.len() ==> self.entries@[x].token@ != t@,
            decreases 3 - k,
        {
            let sp = special_token(k);
            if bytes_eq(&sp, t) {
                return Some(k);
            }
            k = k + 1;
        }
        None
    }

    /// The score of a loaded token's bytes; specials carry no score.
    pub open spec fn spec_score_of(&self, t: Seq<u8>) -> Option<i64> {
        if exists|j: int| 0 <= j < self.entries@.len() && self.entries@[j].token@ == t {
            let j = choose|j: int| 0 <= j < self.entries@.len() && self.entries@[j].token@ == t;
            Some(self.entries@[j].score)
        } else {
            None
        }
    }

    /// Look a token's score up by its bytes.
    pub fn score_of(&self, t: &Vec<u8>) -> (r: Option<i64>)
        requires
            self.wf(),
        ensures
            r == self.spec_score_of(t@),
    {
        let n = self.entries.len();
        let mut j: usize = 0;
        while j < n
            invariant
                self.wf(),
                j <= n,
                n == self.entries@.len(),
                forall|x: int| 0 <= x < j ==> self.entries@[x].token@ != t@,
            decreases n - j,
        {
            if bytes_eq(&self.entries[j].token, t) {
                proof {
                    lemma_unique_token_index(self, t@, j as int);
                }
                return Some(self.entries[j].score);
            }
            j = j + 1;
        }
        None
    }

    /// Look the bytes up for an id; `None` exactly on unknown ids.
    pub fn lookup_bytes(&self, id: usize) -> (r: Option<Vec<u8>>)
        requires
            self.wf(),
        ensures
            r is Some <==> self.spec_id_known(id as int),
            r matches Some(t) ==> t@ == self.spec_token_of_id(id as int),
    {
        if id >= self.id_tokens.len() {
            return None;
        }
        match &self.id_tokens[id] {
            Some(t) => Some(bytes_clone(t)),
            None => None,
        }
    }
}

/// In a well-formed vocabulary, an entry index whose token is `t` is
/// the index `choose` picks for `t`.
proof fn lemma_unique_token_index(v: &Vocabulary, t: Seq<u8>, j: int)
    requires
        v.wf(),
        0 <= j < v.entries@.len(),
        v.entries@[j].token@ == t,
    ensures
        (choose|x: int| 0 <= x < v.entries@.len() && v.entries@[x].token@ == t) == j,
{
    let jj = choose|x: int| 0 <= x < v.entries@.len() && v.entries@[x].token@ == t;
    assert(0 <= jj < v.entries@.len() && v.entries@[jj].token@ == t);
    if jj < j {
        assert(v.entries@[jj].token@ != v.entries@[j].token@);
    } else if jj > j {
        assert(v.entries@[j].token@ != v.entries@[jj].token@);
    }
}

/// A fresh copy of a byte vector with the same contents.
pub fn bytes_clone(v: &Vec<u8>) -> (r: Vec<u8>)
    ensures
        r@ == v@,
{
    let n = v.len();
    let mut out: Vec<u8> = Vec::new();
    let mut i: usize = 0;
    while i < n
        invariant
            i <= n,
            n == v@.len(),
            out@ =~= v@.subrange(0, i as int),
        decreases n - i,
    {
        out.push(v[i]);
        i = i + 1;
    }
    proof {
        assert(out@ =~= v@);
    }
    out
}

/// Byte-for-byte equality of two byte vectors.
pub fn bytes_eq(a: &Vec<u8>, b: &Vec<u8>) -> (r: bool)
    ensures
        r == (a@ == b@),
{
    if a.len() != b.len() {
        assert(a@ != b@);
        return false;
    }
    let n = a.len();
    let mut i: usize = 0;
    while i < n
        invariant
            i <= n,
            n == a@.len() == b@.len(),
            forall|x: int| 0 <= x < i ==> a@[x] == b@[x],
        decreases n - i,
    {
        if a[i] != b[i] {
            return false;
        }
        i = i + 1;
    }
    proof {
        assert(a@ =~= b@);
    }
    true
}

/// Whether some already accepted entry is spelled `t`.
fn contains_token(entries: &Vec<VocabEntry>, t: &Vec<u8>) -> (r: bool)
    ensures
        r == exists|j: int| 0 <= j < entries@.len() && entries@[j].token@ == t@,
{
    let n = entries.len();
    let mut j: usize = 0;
    while j < n
        invariant
            j <= n,
            n == entries@.len(),
            forall|x: int| 0 <= x < j ==> entries@[x].token@ != t@,
        decreases n - j,
    {
        if bytes_eq(&entries[j].token, t) {
            return true;
        }
        j = j + 1;
    }
    false
}

} // verus!
