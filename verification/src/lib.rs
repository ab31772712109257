//! Homoglyph normalization: confusable-set registries that map visually
//! similar characters to one canonical glyph per target locale, and a
//! normalizer that rewrites text character by character against an ordered
//! collection of such registries.

mod locale;
mod lookalikes;
mod normalize;
mod text;

pub use locale::Locale;
pub use locale::LocaleID;
pub use lookalikes::Error;
pub use lookalikes::Lookalikes;
pub use lookalikes::build_canon;
pub use lookalikes::classifier_collision_free;
pub use lookalikes::classifies_to;
pub use normalize::TextNormalizationResult;
pub use normalize::lemma_canonical_text_unchanged;
pub use normalize::lemma_earlier_of_two_wins;
pub use normalize::lemma_first_match_wins;
pub use normalize::lemma_no_sets_identity;
pub use normalize::lemma_normalize_deterministic;
pub use normalize::make_normalized_text;
pub use normalize::normalized_text;
pub use normalize::resolved_char;
pub use text::is_sorted;
pub use text::lemma_sorted_permutation_unique;
