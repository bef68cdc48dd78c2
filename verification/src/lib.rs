//! Ranks character-class masks extracted from a word list.
//!
//! A word list (for example a leaked password corpus) is summarized as a
//! ranked set of character-class masks such as `ullll` (one uppercase letter
//! followed by four lowercase letters).  Each word is classified into a mask,
//! occurrences are counted per mask, every mask's keyspace size is computed
//! exactly with overflow protection, masks are ranked by occurrence density
//! (count divided by size), and finally a greedy pass selects masks that fit
//! a total keyspace budget.

mod counts;
mod mask;
mod rank;
mod select;

pub use counts::MaskCounts;
pub use counts::ReadError;
pub use counts::all_ok;
pub use counts::counts_toward;
pub use counts::generate_masks_from_bufreader;
pub use counts::lemma_mask_count_le_len;
pub use counts::lemma_mask_count_push;
pub use counts::mask_count_in;
pub use counts::words_of;
pub use mask::MaskError;
pub use mask::class_cardinality;
pub use mask::class_symbol;
pub use mask::compute_mask_size;
pub use mask::generate_mask;
pub use mask::is_digit_char;
pub use mask::is_lower_char;
pub use mask::is_mask_char;
pub use mask::is_special_char;
pub use mask::is_upper_char;
pub use mask::is_word_char;
pub use mask::lemma_mask_of_valid;
pub use mask::lemma_mask_size_pos;
pub use mask::lemma_mask_size_prefix_le;
pub use mask::lemma_size_depends_only_on_mask;
pub use mask::mask_of;
pub use mask::mask_size_of;
pub use mask::valid_mask;
pub use mask::valid_word;
pub use rank::ComputedMask;
pub use rank::MaskRec;
pub use rank::cost_ge;
pub use rank::lemma_cost_ge_total;
pub use rank::lemma_cost_ge_trans;
pub use rank::lemma_rank_deterministic;
pub use rank::recs_of;
pub use rank::sort_masks;
pub use rank::sorted_by_cost;
pub use rank::surviving_recs;
pub use select::lemma_select_within_budget;
pub use select::parse_lines;
pub use select::select_masks;
pub use select::select_spec;
