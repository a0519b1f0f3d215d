//! Forma (formerly XL): source locations, lexers, a lossless syntax tree
//! parser and the small value model of a pure data-transformation language.

pub mod text;
pub mod source;

pub mod syntax;
pub mod lexer;
pub mod value;
pub mod module_id;
pub mod manifest;
pub mod types;
pub mod descriptor;
pub mod ast;
pub mod parser;
pub mod bytecode;
pub mod json;
pub mod module;
pub mod core_modules;
pub mod compiler;
pub mod semantic;
pub mod heap;
pub mod metadata;
