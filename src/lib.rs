//! Solutions of the Pell equation x² − D·y² = 1 for non-square D > 1.
//!
//! The fundamental solution is found through the continued-fraction
//! expansion of √D; further solutions are powers of it in the ring Z[√D],
//! computed by binary exponentiation, by a batch recurrence, or lazily by a
//! resettable sequence.
pub mod bignat;
pub mod cf;
pub mod decimal;
pub mod error;
pub mod laws;
pub mod ring;
pub mod sequence;
pub mod solver;
pub mod utils;

pub use bignat::BigNat;
pub use error::PellError;
pub use sequence::PellSolutionIterator;
pub use solver::{pell_min_solution, pell_solution_k, pell_solutions, verify_pell_solution};
pub use utils::{is_square_u64, is_valid_pell_d, isqrt_u64};
