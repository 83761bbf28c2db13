//! Untyped Plutus Core: the flat bit-level codec for programs and the
//! discharge procedure that turns runtime values back into closed terms.
pub mod ast;
pub mod builtins;
pub mod bits;
pub mod encode;
pub mod decode;
pub mod flat;
pub mod discharge;
