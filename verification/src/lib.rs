//! Rewrites stock phrases in English text according to a rule book of
//! literal phrases, verb and noun lemmas, and templates with holes.
//! Every function here is verified with Verus against its contract.
pub mod text;
pub mod inflect;
pub mod rules;
pub mod compile;
pub mod rewrite;
pub mod book;
pub mod engine;
