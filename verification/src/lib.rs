pub mod common;
pub mod disjoint_set;
pub mod error;
pub mod ir;
pub mod settings;

pub use crate::settings::CompileSettings;
pub mod blueprint;
pub mod symbols;
pub mod parser;
pub mod assets;
pub mod rom_generator;
pub mod lexer;
