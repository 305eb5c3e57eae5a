//! A byte-level subword tokenizer.
//!
//! Text is segmented against a fixed vocabulary of byte-sequence tokens,
//! each carrying an integer id and a log-probability score; a dynamic
//! program over all token occurrences picks the best-scoring segmentation
//! (or replays a sampled one), and token ids map back to bytes for decoding.

mod chunker;
mod error;
mod laws;
mod matcher;
mod segment;
mod tokenizer;
mod vocab;

pub use chunker::chunk;
pub use chunker::chunk_shape;
pub use chunker::chunks_of;
pub use chunker::lemma_chunks_concat;
pub use chunker::lemma_chunks_shape;
pub use error::Error;
pub use laws::chunk_token_bytes;
pub use laws::chunk_tokens_utf8;
pub use laws::lemma_best_segmentation;
pub use laws::lemma_encode_utf8_concat;
pub use laws::lemma_matcher_total;
pub use laws::lemma_round_trip;
pub use matcher::MatchSpan;
pub use matcher::automaton_patterns;
pub use matcher::automaton_standard;
pub use matcher::is_occurrence;
pub use matcher::matches_complete;
pub use matcher::matches_end_sorted;
pub use matcher::matches_sound;
pub use matcher::matcher_output_ok;
pub use matcher::matches_strictly_ordered;
pub use matcher::span_lt;
pub use matcher::the_matches;
pub use matcher::lemma_matcher_output_unique;
pub use segment::bt;
pub use segment::dp_routes;
pub use segment::dp_scores;
pub use segment::matches_in_bounds;
pub use segment::matches_span_ok;
pub use segment::path_ok;
pub use segment::path_weight;
pub use segment::reach;
pub use segment::viterbi_decode;
pub use segment::viterbi_sample;
pub use segment::weights_in_range;
pub use tokenizer::Tokenizer;
pub use tokenizer::nfc_of;
pub use tokenizer::normalize;
pub use tokenizer::token_text;
pub use tokenizer::with_markers;
pub use vocab::RawEntry;
pub use vocab::VocabEntry;
pub use vocab::Vocabulary;
pub use vocab::SCORE_MIN;
pub use vocab::b64_decode_of;
pub use vocab::raw_entry_ok;
pub use vocab::raw_token;
pub use vocab::raw_vocab_ok;
pub use vocab::special_bytes;
