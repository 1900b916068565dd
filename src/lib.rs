//! A small concatenative rewriting language: sequences of words and quotes,
//! reduced by built-in structural operators and by user rules.
mod ast;
mod engine;
pub mod parse;
pub mod pretty;

pub use crate::ast::{
    all_known, flat, flat_rules, form_of, forms, known, rule_views, rules_known, term_eq, terms_eq,
    views, Engine, Form, Primitive, Rule, RuleView, Symbol, Term, TermView,
};
pub use crate::engine::{
    lemma_rewrite_idempotent, lemma_run_normal, lemma_stuck_terms_preserved, normal, one_step,
    rewrite, rewrite_step, run,
};
