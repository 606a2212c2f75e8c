//! A small lambda-calculus engine: named terms with capture-avoiding
//! substitution, four single-step reduction strategies, and an
//! alpha-invariant De Bruijn level representation with lossless
//! conversion in both directions. A definition compiler turns
//! surface syntax into terms, resolving macro names through a
//! pluggable environment.

pub mod church;
pub mod compile;
pub mod env;
pub mod levels;
pub mod parse;
pub mod term;

pub use church::ChurchEnvironment;
pub use compile::compile_term;
pub use env::CompoundEnvironment;
pub use env::RegistryEnvironment;
pub use levels::BruijnLevelsTerm;
pub use term::Term;
