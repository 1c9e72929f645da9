//! Front end of the Legible compiler: the contextual lexer that turns source
//! text into positioned tokens, and the syntax tree that a grammar builds
//! from them.

use vstd::prelude::*;

pub mod ast;
pub mod laws;
pub mod lexer;
pub mod scan;
pub mod text;
