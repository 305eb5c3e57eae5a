use base64::Engine;

use bytepiece::Error;
use bytepiece::RawEntry;
use bytepiece::Tokenizer;
use bytepiece::chunk;
use bytepiece::normalize;

fn key(bytes: &[u8]) -> String {
    base64::engine::general_purpose::STANDARD.encode(bytes)
}

fn entry(bytes: &[u8], id: usize, score: i64) -> RawEntry {
    RawEntry { key: key(bytes), id, score }
}

/// A small vocabulary: single-byte fallbacks plus a couple of merged
/// tokens, with scores favouring the merged spellings.
fn small_vocab() -> Vec<RawEntry> {
    vec![
        entry(b"a", 3, -5000),
        entry(b"b", 4, -5000),
        entry(b"ab", 5, -1000),
        entry(b"\n", 6, -100),
        entry("\u{e9}".as_bytes(), 7, -200),
        entry(&[0xff], 8, -300),
    ]
}

fn small_tokenizer() -> Tokenizer {
    Tokenizer::new(&small_vocab()).unwrap()
}

#[test]
fn test_tokenize() {

}

#[test]
fn test_chunk() {
    let text = "今天天气不错";
    let text_list = chunk(text);
    assert_eq!(text_list, vec!["今天天气不错"]);
    let text2 = "今天天气不错\n";
    let text_list2 = chunk(text2);
    assert_eq!(text_list2, vec!["今天天气不错\n"]);
    let text3 = "今天天气不错\n今天天气不错";
    let text_list3 = chunk(text3);
    assert_eq!(text_list3, vec!["今天天气不错\n", "今天天气不错"]);
}

#[test]
fn chunk_keeps_newlines_attached() {
    assert_eq!(chunk("a\n\nb"), vec!["a\n\n", "b"]);
    assert_eq!(chunk(""), Vec::<String>::new());
    assert_eq!(chunk("\n\na"), vec!["\n\n", "a"]);
    assert_eq!(chunk("\n"), vec!["\n"]);
}

#[test]
fn chunk_concat_restores_text() {
    let text = "one\ntwo\n\nthree\n";
    let pieces = chunk(text);
    let rebuilt: String = pieces.concat();
    assert_eq!(rebuilt, text);
}

#[test]
fn encode_prefers_best_scoring_segmentation() {
    let t = small_tokenizer();
    let ids = t.encode("ab", false, false, false).unwrap();
    assert_eq!(ids, vec![5]);
    let ids = t.encode("aba", false, false, false).unwrap();
    assert_eq!(ids, vec![5, 3]);
}

#[test]
fn encode_empty_input() {
    let t = small_tokenizer();
    assert_eq!(t.encode("", false, false, false).unwrap(), Vec::<usize>::new());
    assert_eq!(t.encode("", true, false, false).unwrap(), vec![1]);
    assert_eq!(t.encode("", false, true, false).unwrap(), vec![2]);
    assert_eq!(t.encode("", true, true, false).unwrap(), vec![1, 2]);
    assert_eq!(t.encode("", true, true, true).unwrap(), vec![1, 2]);
}

#[test]
fn encode_adds_markers() {
    let t = small_tokenizer();
    let ids = t.encode("ab", true, true, false).unwrap();
    assert_eq!(ids, vec![1, 5, 2]);
}

#[test]
fn encode_is_deterministic() {
    let t = small_tokenizer();
    let text = "abab\nab";
    let first = t.encode(text, false, false, false).unwrap();
    for _ in 0..5 {
        assert_eq!(t.encode(text, false, false, false).unwrap(), first);
    }
}

#[test]
fn round_trip_restores_text() {
    let t = small_tokenizer();
    for text in ["ab", "aba", "ab\nba", "a\n\nb", "bbbb"] {
        let ids = t.encode(text, false, false, false).unwrap();
        assert_eq!(t.decode(ids).unwrap(), text);
    }
}

#[test]
fn decode_unknown_id_fails() {
    let t = small_tokenizer();
    assert_eq!(t.decode(vec![999999999]), Err(Error::UnknownTokenIdError));
    assert_eq!(t.decode(vec![5, 100]), Err(Error::UnknownTokenIdError));
}

#[test]
fn decode_specials_spell_their_names() {
    let t = small_tokenizer();
    assert_eq!(t.decode(vec![1]).unwrap(), "<bos>");
    assert_eq!(t.decode(vec![0, 1, 2]).unwrap(), "<pad><bos><eos>");
}

#[test]
fn decode_skips_invalid_utf8_tokens() {
    let t = small_tokenizer();
    assert_eq!(t.decode(vec![8]).unwrap(), "");
    assert_eq!(t.decode(vec![5, 8, 5]).unwrap(), "abab");
}

#[test]
fn encode_unsegmentable_input_fails() {
    let t = small_tokenizer();
    assert_eq!(t.encode("abc", false, false, false), Err(Error::UnsegmentableInputError));
    assert_eq!(t.encode("c", false, false, false), Err(Error::UnsegmentableInputError));
}

#[test]
fn encode_normalizes_when_asked() {
    let t = small_tokenizer();
    // "e" followed by a combining acute accent composes to a single
    // accented character under NFC, which the vocabulary knows.
    let decomposed = "e\u{301}";
    assert_eq!(t.encode(decomposed, false, false, true).unwrap(), vec![7]);
    // Without normalization the decomposed spelling is not in the
    // vocabulary at all.
    assert_eq!(t.encode(decomposed, false, false, false), Err(Error::UnsegmentableInputError));
}

#[test]
fn normalize_splits_normalized_text() {
    let pieces = normalize("a\nb");
    assert_eq!(pieces, vec!["a\n", "b"]);
}

#[test]
fn sampled_segmentation_follows_choices() {
    let t = small_tokenizer();
    let bytes: Vec<u8> = b"ab".to_vec();
    // Matches over "ab" in report order: (0,1,"a"), (0,2,"ab"), (1,2,"b").
    // With every extra acceptance declined, the first edge into each
    // offset wins: the whole-span token.
    let ids = t.sample_tokenize_bytes(&bytes, &vec![false, false, false]).unwrap();
    assert_eq!(ids, vec![5]);
    // Accepting the replacement at offset 2 swaps in the two-token path.
    let ids = t.sample_tokenize_bytes(&bytes, &vec![false, false, true]).unwrap();
    assert_eq!(ids, vec![3, 4]);
    // Whatever the choices, the result decodes back to the input.
    for pattern in 0..8u32 {
        let choices: Vec<bool> = (0..3).map(|k| pattern & (1 << k) != 0).collect();
        let ids = t.sample_tokenize_bytes(&bytes, &choices).unwrap();
        assert_eq!(t.decode(ids).unwrap(), "ab");
    }
}

#[test]
fn tokenize_bytes_matches_tokenize() {
    let t = small_tokenizer();
    let ids = t.tokenize_bytes(&b"ab".to_vec()).unwrap();
    assert_eq!(ids, vec![5]);
    assert_eq!(t.tokenize("ab", false).unwrap(), ids);
}

#[test]
fn model_rejects_bad_entries() {
    // Invalid base64 key.
    let raw = vec![RawEntry { key: "!!!".to_string(), id: 3, score: -1 }];
    assert_eq!(Tokenizer::new(&raw).err(), Some(Error::ModelFormatError));
    // Empty token.
    let raw = vec![entry(b"", 3, -1)];
    assert_eq!(Tokenizer::new(&raw).err(), Some(Error::ModelFormatError));
    // Duplicate id.
    let raw = vec![entry(b"a", 3, -1), entry(b"b", 3, -1)];
    assert_eq!(Tokenizer::new(&raw).err(), Some(Error::ModelFormatError));
    // Reserved id.
    let raw = vec![entry(b"a", 1, -1)];
    assert_eq!(Tokenizer::new(&raw).err(), Some(Error::ModelFormatError));
    // Id too large for a dense table.
    let raw = vec![entry(b"a", 10, -1)];
    assert_eq!(Tokenizer::new(&raw).err(), Some(Error::ModelFormatError));
    // Positive score.
    let raw = vec![entry(b"a", 3, 1)];
    assert_eq!(Tokenizer::new(&raw).err(), Some(Error::ModelFormatError));
    // Duplicate token spelling.
    let raw = vec![entry(b"a", 3, -1), entry(b"a", 4, -1)];
    assert_eq!(Tokenizer::new(&raw).err(), Some(Error::ModelFormatError));
}

#[test]
fn vocabulary_lookups() {
    let t = small_tokenizer();
    assert_eq!(t.vocab.lookup_id(&b"ab".to_vec()), Some(5));
    assert_eq!(t.vocab.lookup_id(&b"zz".to_vec()), None);
    assert_eq!(t.vocab.lookup_id(&b"<bos>".to_vec()), Some(1));
    assert_eq!(t.vocab.score_of(&b"ab".to_vec()), Some(-1000));
    assert_eq!(t.vocab.score_of(&b"zz".to_vec()), None);
    assert_eq!(t.vocab.lookup_bytes(5), Some(b"ab".to_vec()));
    assert_eq!(t.vocab.lookup_bytes(2), Some(b"<eos>".to_vec()));
    assert_eq!(t.vocab.lookup_bytes(100), None);
}

#[test]
fn find_matches_reports_all_occurrences() {
    let t = small_tokenizer();
    let ms = t.find_matches(&b"ab".to_vec());
    let spans: Vec<(usize, usize)> = ms.iter().map(|m| (m.start, m.end)).collect();
    assert_eq!(spans, vec![(0, 1), (0, 2), (1, 2)]);
}

#[test]
fn multibyte_text_round_trip() {
    // Three two-character tokens cover the sentence exactly; the
    // single-character fallback loses to them on score.
    let raw = vec![
        entry("今天".as_bytes(), 3, -1000),
        entry("天气".as_bytes(), 4, -1000),
        entry("不错".as_bytes(), 5, -1000),
        entry("天".as_bytes(), 6, -4000),
    ];
    let t = Tokenizer::new(&raw).unwrap();
    let text = "今天天气不错";
    let ids = t.encode(text, false, false, false).unwrap();
    assert_eq!(ids, vec![3, 4, 5]);
    assert_eq!(t.decode(ids).unwrap(), text);
}

#[test]
fn error_descriptions_are_distinct() {
    let errors = [
        bytepiece::Error::ModelFormatError,
        bytepiece::Error::PatternBuildError,
        bytepiece::Error::UnsegmentableInputError,
        bytepiece::Error::UnknownTokenIdError,
        bytepiece::Error::InconsistentVocabularyError,
    ];
    for (i, a) in errors.iter().enumerate() {
        assert!(!a.describe().is_empty());
        for (j, b) in errors.iter().enumerate() {
            if i != j {
                assert_ne!(a.describe(), b.describe());
            }
        }
    }
}

#[test]
fn init_empty_has_no_model() {
    let t = Tokenizer::init_empty();
    assert!(t.automaton.is_none());
    assert_eq!(t.decode(vec![1]).unwrap(), "<bos>");
}
