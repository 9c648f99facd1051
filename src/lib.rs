//! A string-rewriting puzzle engine: rules of the form `left=right` (or
//! `left:=right`, usable once per run) rewrite an input string step by step
//! until no rule applies, and puzzle levels are identified by short codes drawn
//! from a seeded generator.

pub mod text;
pub mod program;
pub mod laws;
pub mod codes;
pub mod packs;
