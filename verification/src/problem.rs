//! Validation of the shape of a problem: the lengths of the bounds and of
//! the initial point, and which coordinate is the first invalid one.
//!
//! Whether a single bound or coordinate is valid is a floating-point
//! question (finite, lower below upper, inside the bounds); the caller
//! answers it per coordinate and this module decides which error, if any,
//! the problem gets.
use vstd::prelude::*;

verus! {

/// Why a problem is refused.
#[derive(Clone, Copy, Debug, PartialEq, Eq)]
pub enum ProblemError {
    /// The lower and upper bounds differ in length.
    BoundsLengthMismatch { lower: usize, upper: usize },
    /// There are no parameters.
    EmptyProblem,
    /// The initial point does not have one coordinate per parameter.
    InitialPointLengthMismatch { expected: usize, actual: usize },
    /// The bounds of parameter `index` are invalid, or the initial point's
    /// coordinate `index` lies outside them.
    InvalidBounds { index: usize },
}

/// `index` is the first position of `flags` that is false.
pub open spec fn is_first_false(flags: Seq<bool>, index: int) -> bool {
    &&& 0 <= index < flags.len()
    &&& !flags[index]
    &&& forall|j: int| 0 <= j < index ==> flags[j]
}

/// Finds the first position that is false.
fn first_false(flags: &[bool]) -> (index: Option<usize>)
    ensures
        match index {
            Some(i) => is_first_false(flags@, i as int),
            None => forall|j: int| 0 <= j < flags@.len() ==> flags@[j],
        },
{
    let mut i: usize = 0;
    while i < flags.len()
        invariant
            i <= flags@.len(),
            forall|j: int| 0 <= j < i ==> flags@[j],
        decreases flags@.len() - i,
    {
        if !flags[i] {
            return Some(i);
        }
        i = i + 1;
    }
    None
}

/// Checks a problem with `bounds_valid.len()` lower bounds and `upper_len`
/// upper bounds. `bounds_valid[i]` tells whether the bounds of parameter `i`
/// are valid (both finite and the lower below the upper); `initial_valid`,
/// when there is an initial point, has one entry per coordinate of it,
/// telling whether that coordinate is finite and within the bounds of its
/// parameter. The checks, in order: the bounds have equal lengths, there is
/// at least one parameter, every parameter's bounds are valid, the initial
/// point has one coordinate per parameter, every coordinate is valid.
pub fn validate_problem(
    bounds_valid: &[bool],
    upper_len: usize,
    initial_valid: Option<&[bool]>,
) -> (verdict: Result<(), ProblemError>)
    ensures
        bounds_valid@.len() != upper_len ==> verdict == Err::<(), ProblemError>(
            ProblemError::BoundsLengthMismatch { lower: bounds_valid@.len() as usize, upper: upper_len },
        ),
        bounds_valid@.len() == upper_len && upper_len == 0 ==> verdict == Err::<(), ProblemError>(
            ProblemError::EmptyProblem,
        ),
        bounds_valid@.len() == upper_len && upper_len > 0 ==> {
            if exists|i: int| 0 <= i < upper_len && !bounds_valid@[i] {
                exists|i: int|
                    is_first_false(bounds_valid@, i) && verdict == Err::<(), ProblemError>(
                        ProblemError::InvalidBounds { index: i as usize },
                    )
            } else {
                match initial_valid {
                    None => verdict == Ok::<(), ProblemError>(()),
                    Some(initial) => if initial@.len() != upper_len {
                        verdict == Err::<(), ProblemError>(
                            ProblemError::InitialPointLengthMismatch {
                                expected: upper_len,
                                actual: initial@.len() as usize,
                            },
                        )
                    } else if exists|i: int| 0 <= i < upper_len && !initial@[i] {
                        exists|i: int|
                            is_first_false(initial@, i) && verdict == Err::<(), ProblemError>(
                                ProblemError::InvalidBounds { index: i as usize },
                            )
                    } else {
                        verdict == Ok::<(), ProblemError>(())
                    },
                }
            }
        },
{
    let lower_len = bounds_valid.len();
    if lower_len != upper_len {
        return Err(ProblemError::BoundsLengthMismatch { lower: lower_len, upper: upper_len });
    }
    if lower_len == 0 {
        return Err(ProblemError::EmptyProblem);
    }
    if let Some(index) = first_false(bounds_valid) {
        return Err(ProblemError::InvalidBounds { index });
    }
    if let Some(initial) = initial_valid {
        if initial.len() != lower_len {
            return Err(
                ProblemError::InitialPointLengthMismatch { expected: lower_len, actual: initial.len() },
            );
        }
        if let Some(index) = first_false(initial) {
            return Err(ProblemError::InvalidBounds { index });
        }
    }
    Ok(())
}

} // verus!
