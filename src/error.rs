//! Errors of the Pell solver.
use vstd::prelude::*;
use vstd::string::*;

use crate::decimal::{decimal_of, u64_to_decimal};
use crate::utils::{floor_sqrt, isqrt_u64};

verus! {

/// Why a Pell computation was refused.
#[derive(Debug, Clone, Copy, PartialEq, Eq, Structural)]
pub enum PellError {
    /// D must be greater than 1; carries the offending D.
    InvalidD(u64),
    /// D must not be a perfect square; carries D.
    PerfectSquare(u64),
    /// The index k must be greater than 0; carries the offending k.
    InvalidK(u64),
}

impl PellError {
    /// The text that describes the error.
    pub open spec fn message_spec(&self) -> Seq<char> {
        match *self {
            PellError::InvalidD(d) => "D must be > 1, got "@ + decimal_of(d as nat),
            PellError::PerfectSquare(d) => "D must be non-square, got "@ + decimal_of(d as nat)
                + " which is "@ + decimal_of(floor_sqrt(d as int) as nat) + "\u{b2}"@,
            PellError::InvalidK(k) => "k must be > 0, got "@ + decimal_of(k as nat),
        }
    }

    /// Describes the error, naming the offending value (and, for a square D,
    /// its root).
    pub fn message(&self) -> (r: String)
        ensures
            r@ == self.message_spec(),
    {
        match *self {
            PellError::InvalidD(d) => {
                let head = String::from_str("D must be > 1, got ");
                let r = head.concat(u64_to_decimal(d).as_str());
                r
            },
            PellError::PerfectSquare(d) => {
                let root = isqrt_u64(d);
                let head = String::from_str("D must be non-square, got ");
                let r = head.concat(u64_to_decimal(d).as_str());
                let r = r.concat(" which is ");
                let r = r.concat(u64_to_decimal(root).as_str());
                let r = r.concat("\u{b2}");
                r
            },
            PellError::InvalidK(k) => {
                let head = String::from_str("k must be > 0, got ");
                let r = head.concat(u64_to_decimal(k).as_str());
                r
            },
        }
    }
}

} // verus!
