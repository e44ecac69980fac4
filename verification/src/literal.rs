//! Literal programs: the instructions that decide what a literal match
//! reports.

pub mod bitwise;
pub mod branch;
pub mod checks;
pub mod dedupe;
pub mod history;
pub mod instructions;
pub mod laws;
pub mod layouts;
pub mod op;
pub mod program;
pub mod report;

use vstd::prelude::*;

use crate::nfa::NfaError;
use crate::rose::RoseError;

verus! {

/// Why a literal program cannot be run to its end.
#[derive(Debug, Clone, PartialEq, Eq)]
pub enum InterpError {
    /// An offset in the program points outside the bytecode.
    Rose(RoseError),
    /// An instruction that a literal scan does not have.
    UnsupportedOpcode(u8),
    /// The program left the bytecode, or did not stop.
    ProgramOverrun,
    /// The program asked an automaton.
    Nfa(NfaError),
}

impl From<NfaError> for InterpError {
    fn from(e: NfaError) -> (r: Self) {
        InterpError::Nfa(e)
    }
}

impl vstd::std_specs::convert::FromSpecImpl<NfaError> for InterpError {
    open spec fn obeys_from_spec() -> bool {
        true
    }

    open spec fn from_spec(e: NfaError) -> InterpError {
        InterpError::Nfa(e)
    }
}

impl From<RoseError> for InterpError {
    fn from(e: RoseError) -> (r: Self) {
        InterpError::Rose(e)
    }
}

impl vstd::std_specs::convert::FromSpecImpl<RoseError> for InterpError {
    open spec fn obeys_from_spec() -> bool {
        true
    }

    open spec fn from_spec(e: RoseError) -> InterpError {
        InterpError::Rose(e)
    }
}

} // verus!
