//! Text-comparison primitives over grapheme-aware sequences: edit distance,
//! optimal alignment, greedy dictionary segmentation and word-level metrics.

pub mod sequence;
pub mod graphemes_struct;
pub mod distance;
pub mod alignment;
pub mod segment;
pub mod metrics;

pub use self::sequence::{Sequence, Token};
pub use self::graphemes_struct::Graphemes;
pub use self::distance::levenshtein_distance;
pub use self::alignment::{alignment_path, alignment_strings};
pub use self::segment::{max_match, Dictionary};
pub use self::metrics::{word_accuracy, word_error_rate};
