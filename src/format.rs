//! The three record layouts.
/// Binary layout.
pub mod format_bin;
/// CSV layout.
pub mod format_csv;
/// Key-value text layout.
pub mod format_txt;
