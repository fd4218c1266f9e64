//! Shortening of CSS class names inside HTML documents.
//!
//! Class tokens are replaced by short generated identifiers, consistently
//! across documents, through a state that the caller keeps between calls.
//! Tokens on a safelist pass through unchanged, and a token's layer (the
//! part before its first `@`) is kept, or renamed through a table.
pub mod compress;
pub mod ident;
pub mod laws;
pub mod markup;
pub mod rewrite;

pub use compress::{compress_css_classes, CompressionState};
pub use ident::{encode_number, generate_css_class};
pub use markup::{extract_css_class, extract_images, split_class_value};
pub use rewrite::compress_css_classes_html;
