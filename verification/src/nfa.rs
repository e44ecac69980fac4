//! The place of the automata engines in a literal-only scanner.
//!
//! A pure-literal program never asks an automaton. A program that does is
//! refused with a clean error, never scanned wrongly.

use vstd::prelude::*;

verus! {

/// Why an automaton cannot be used.
#[derive(Debug, Clone, PartialEq, Eq)]
pub enum NfaError {
    Truncated,
    BadTable(&'static str),
    Unsupported(&'static str),
}

/// The one answer that this scanner gives about automata.
pub open spec fn nfa_out_of_scope() -> NfaError {
    NfaError::Unsupported("NFA/regex (Ф3) не входит в russcan-lite")
}

/// A leftfix or infix automaton. None is ever made.
pub struct Nfa<'a> {
    pub bytes: &'a [u8],
}

impl<'a> Nfa<'a> {
    /// Refuses every automaton.
    pub fn from_bytes(nfa: &'a [u8]) -> (r: Result<Nfa<'a>, NfaError>)
        ensures
            r == Err::<Nfa<'a>, NfaError>(nfa_out_of_scope()),
    {
        let _ = nfa;
        Err(NfaError::Unsupported("NFA/regex (Ф3) не входит в russcan-lite"))
    }

    /// Refuses every question.
    pub fn in_accept_state(&self, input: &[u8], report: u32) -> (r: Result<bool, NfaError>)
        ensures
            r == Err::<bool, NfaError>(nfa_out_of_scope()),
    {
        let _ = (input, report);
        Err(NfaError::Unsupported("NFA/regex (Ф3) не входит в russcan-lite"))
    }
}

} // verus!
