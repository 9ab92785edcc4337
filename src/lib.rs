//! A small rendering pipeline: markup and stylesheet parsing, the style
//! cascade, block layout, and painting into a pixel canvas.
//!
//! Every function here is verified: contracts state what each computes,
//! and lemmas state the laws that tie the stages together.
pub mod css_parser;
pub mod cursor;
pub mod dom;
pub mod html_parser;
pub mod keyed;
pub mod layout;
pub mod painting;
pub mod sorting;
pub mod style;
pub mod text;
