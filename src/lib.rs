//! Extraction of text, attribute values and indented markup from HTML
//! documents, driven by a compact directive string such as
//! `"h1 attr{class}, h1 {text}"`.
pub mod text;
pub mod directive;
pub mod charset;
pub mod dom;
pub mod tree;
pub mod finder;
pub mod extract;

pub use charset::{decode_html, meta_charset};
pub use directive::Operation;
pub use dom::{Document, DomNode, ElementData, NodeKind};
pub use extract::{extract_values, parse, select_all, Inputs};
pub use finder::{parse_directives, Finder};
pub use tree::{indentation, is_present, print_tree, trim_start_n};
