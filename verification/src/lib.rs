//! A small term rewriting system: terms are leaves or operator nodes, rules
//! rewrite a term whose root matches a rule's left-hand side into the rule's
//! right-hand side, and a rewriter repeats such steps until a leaf remains.
pub mod text;
pub mod term;
pub mod semantics;
pub mod rewriter;
pub mod boolean_rules;
pub mod laws;
