//! A META II-style meta-compiler kernel: a backtracking recognizer/translator
//! virtual machine (MVM), a small arithmetic stack machine (AVM), the textual
//! assembler both machines share, and a hand-coded bootstrap translator that
//! turns META syntax descriptions into MVM assembly.

pub mod text;
pub mod value;
pub mod lexer;
pub mod maps;
pub mod mvm;
pub mod assembler;
pub mod avm;
pub mod bstrap;
pub mod laws;
