//! A structural parser for stylesheet source text.
//!
//! The scanner in [`parser::tokenizer`] cuts the source into positioned tokens,
//! [`parser::Parser`] builds the positioned tree of [`ast`] from them, and
//! [`parser::visitor`] walks that tree. [`syntax`] holds the productions of the
//! syntax one by one, each on a text of its own, and [`text`] what both need to
//! cut texts at byte offsets.

pub mod ast;
pub mod parser;
pub mod syntax;
pub mod text;
