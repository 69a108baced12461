//! Deduces which single ingredient carries each allergen in a list of food
//! records. Each record names its ingredients and some allergens known to be
//! present among them. Candidate sets are built by intersecting the
//! ingredients of every record declaring an allergen, safe ingredients are
//! those in no candidate set, and a fixed-point elimination resolves each
//! allergen to exactly one ingredient, failing loudly when the input does not
//! determine a solution.

pub mod candidates;
pub mod food;
pub mod laws;
pub mod names;
pub mod parse;
pub mod reduce;
pub mod render;
pub mod safe;
