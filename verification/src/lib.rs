//! Construction and expansion machinery for a context-free grammar whose
//! nonterminals may carry type-like parameters.
//!
//! A [`builder::GrammarBuilder`] accumulates nonterminals and productions,
//! assigns stable integer identities, interns literal text, and finally
//! yields an immutable [`grammar::Context`].  The expansion engine in
//! [`expand`] walks a finished grammar from a start nonterminal, querying
//! per-production handler and multiplicity capabilities to pick one concrete
//! instantiation.

pub mod ty;
pub mod grammar;
pub mod builder;
pub mod expand;
