//! Solving monoalphabetic substitution ciphers by word shapes.
use vstd::prelude::*;

pub mod text;
pub mod pattern;
pub mod word;
pub mod key;
pub mod solve;
pub mod input;
pub mod clean;
pub mod dictionary;
pub mod cache;
pub mod loading;

pub use pattern::normalize;
pub use word::Word;
pub use key::apply_solution;
pub use dictionary::{load_wordlist, Dictionary};

verus! {

} // verus!
