//! Filtering of rectangular spreadsheet regions.
//!
//! The library turns spreadsheet-style range references such as `"A1:C10"`
//! into zero-based coordinates, applies per-column pattern-plus-comparison
//! filters to the data rows of the region, and renders the selected output
//! column together with a human-readable description of the filters.

mod address;
mod engine;
mod errors;
mod filter;
mod number;

pub use address::CellCoordinate;
pub use address::CellRange;
pub use address::lemma_letters_val_injective;
pub use address::parse_side;
pub use address::to_coords;
pub use engine::lemma_no_rules_keeps_every_row;
pub use engine::Table;
pub use engine::filter_rows;
pub use engine::join_comma;
pub use engine::render_header;
pub use engine::run_filters;
pub use errors::FilterError;
pub use filter::ComparisonKind;
pub use filter::FilterSpec;
pub use filter::compare_match;
pub use filter::parse_comparison;
pub use number::Number;
pub use number::extract_number;
