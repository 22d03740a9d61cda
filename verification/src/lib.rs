//! Backward-driven saturation of first-order Horn clauses: unification,
//! resolution on selected atoms, saturation of a clause set for a query,
//! and the derivation tree of what was derived.
//!
//! Every type has a mathematical model, its view, and the contracts speak
//! of the models: terms are trees, substitutions are maps, the clause set
//! and the record of derivations are sequences.

/// Terms, atoms and clauses.
pub mod ast;
/// Substitutions in executable form.
pub mod bindings;
/// Derivation trees.
pub mod derivation_tree;
/// Renaming the variables of a clause to fresh ones.
pub mod freshen;
/// The lexemes that spell a clause; the parser reads them back.
pub mod grammar;
/// The symbol table.
pub mod identifiers;
/// From surface clauses to internal ones.
pub mod interning;
/// The lexer.
pub mod lexer;
/// Most general unifiers and the invariant of the unification algorithm.
pub mod mgu;
/// Between identifiers and names.
pub mod naming;
/// The parser.
pub mod parser;
/// The text of terms, atoms and clauses.
pub mod render;
/// The commands of the interactive loop.
pub mod repl;
/// Selection, the keep filter and binary resolution.
pub mod resolution;
/// The saturation engine.
pub mod saturation;
/// What clauses mean, and the soundness of resolution.
pub mod semantics;
/// The sizes of terms, atoms and clauses.
pub mod sizes;
/// A text for every sequence of lexemes; the lexer reads them back.
pub mod spelling;
/// Substitutions over term models.
pub mod substitution;
/// Robinson unification.
pub mod unify;
/// Disjoint sets.
pub mod union_find;

pub use crate::parser::Parser;
pub use crate::saturation::{DerivationInfo, SaturationFailure, Sniffer};
