//! First-order Horn-clause reasoning by backward chaining.
use vstd::prelude::*;

pub mod term;
pub mod unify;
pub mod kb;
pub mod bc;

pub use term::{atom_eq, func, pred, symbol_eq, val, var, Atom, AtomView, Rule, RuleView, Symbol, Term};
pub use bc::{bc, get_prove_path, Ckpt};
pub use kb::KB;
pub use unify::{exhaust_subst, exhaust_subst_symbol, subst_known, unify, unify_symbol, unify_var, Theta};

verus! {

/// Why a step of reasoning did not succeed.
#[derive(Debug)]
pub enum ReasoningError {
    /// A binding was asked for something other than a variable.
    ThetaError,
    /// Two terms or atoms have no unifier.
    UnifyError,
    /// The search went past its depth bound.
    DepthLimitExceed,
    /// A goal was asked to prove itself.
    CycleProof,
    /// No rule leads to a proof.
    ProofNotFound,
    /// Input that could not be read as a knowledge base or statement.
    ParseError,
    /// A file that could not be read, by name.
    FileError(String),
}

/// The error of `serde_json`, carried opaquely.
#[verifier::external_type_specification]
#[verifier::external_body]
pub struct ExJsonError(serde_json::Error);

impl From<serde_json::Error> for ReasoningError {
    /// Malformed JSON becomes a `ParseError`.
    fn from(_value: serde_json::Error) -> (r: ReasoningError)
        ensures
            r is ParseError,
    {
        ReasoningError::ParseError
    }
}

impl vstd::std_specs::convert::FromSpecImpl<serde_json::Error> for ReasoningError {
    open spec fn obeys_from_spec() -> bool {
        true
    }

    open spec fn from_spec(v: serde_json::Error) -> ReasoningError {
        ReasoningError::ParseError
    }
}

} // verus!
