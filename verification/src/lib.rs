//! Grouping and ordering of the `use` declarations of a module.
//!
//! A module's imports are expected in blocks, separated by blank lines:
//! those rooted at `std`, then those rooted anywhere else, then those rooted
//! at `crate` or `super`. This library decides whether a module follows that
//! layout and, where it does not, writes the text that puts it right.
//!
//! The library reads no source text. It is handed the items of a module
//! body as plain values: for each `use` declaration its span, the lines it
//! touches and its tree. [`fix::check_use_order`] is the whole analysis; the
//! other modules hold its steps.
//!
//! - [`span`], [`tree`], [`import`]: the values that the analysis works on.
//! - [`category`]: the tier of an import.
//! - [`region`]: the imports of a module in source order.
//! - [`check`]: whether the imports break the layout.
//! - [`groups`]: the imports of each tier.
//! - [`render`]: trees and blocks as source text.
//! - [`fix`]: the suggestion.
//! - [`laws`], [`layout`], [`reading`], [`reread`]: what is proved of all of
//!   this.

pub mod category;
pub mod check;
pub mod fix;
pub mod groups;
pub mod import;
pub mod laws;
pub mod layout;
pub mod reading;
pub mod region;
pub mod reread;
pub mod render;
pub mod span;
pub mod tree;
