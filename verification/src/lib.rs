//! Width-constrained text reconstruction: glyph metrics, candidate search,
//! character n-grams, beam search and anchor stabilization.
//!
//! All quantities are fixed-point integers. Widths and pixel sizes are counted
//! in thousandths of a pixel, score weights in thousandths, and scores in
//! millionths, so that a weight times a width is a score without any division.

pub mod anchor;
pub mod beam;
pub mod candidates;
pub mod font;
pub mod metrics;
pub mod ngram;
pub mod ranking;
pub mod text;

pub use anchor::{anchor_bonus, document_anchors, quantize, stabilize_document, Document, Line};
pub use beam::{beam_search, beam_search_glyphs, score_text, Beam, ScoreWeights};
pub use candidates::find_candidates;
pub use font::{build_glyph_widths, measure_text_kerning, parse_font, FontError};
pub use metrics::measure_width;
pub use ngram::{smoothed_counts, train_ngram, NGramModel};
