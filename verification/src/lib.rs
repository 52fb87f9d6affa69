//! KannakaHDL, the Holographic Development Language: architectures are
//! grown from rewrite rules whose base cases are registry queries.

pub mod emit;
pub mod grow;
pub mod hash;
pub mod laws;
pub mod lexer;
pub mod number;
pub mod parser;
pub mod pipeline;
pub mod registry;
pub mod syntax;
pub mod text;
