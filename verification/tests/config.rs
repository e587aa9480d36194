use sceua::{resolve_plan, validate_problem, ConfigError, Plan, ProblemError};

#[test]
fn defaults_follow_the_number_of_parameters() {
    assert_eq!(
        resolve_plan(2, 5, None, None, None, None, 5000, 5),
        Ok(Plan {
            complexes: 5,
            points_per_complex: 5,
            simplex_size: 3,
            evolution_steps: 5,
            min_complexes: 5,
            max_evaluations: 5000,
            kstop: 5,
        })
    );
}

#[test]
fn explicit_settings_are_kept() {
    assert_eq!(
        resolve_plan(2, 4, Some(7), Some(4), Some(3), Some(2), 100, 1),
        Ok(Plan {
            complexes: 4,
            points_per_complex: 7,
            simplex_size: 4,
            evolution_steps: 3,
            min_complexes: 2,
            max_evaluations: 100,
            kstop: 1,
        })
    );
}

#[test]
fn settings_out_of_range_are_refused_in_order() {
    assert_eq!(
        resolve_plan(2, 0, Some(1), None, None, None, 0, 5),
        Err(ConfigError::NoComplexes)
    );
    assert_eq!(
        resolve_plan(2, 1, Some(1), None, None, None, 0, 5),
        Err(ConfigError::TooFewPointsPerComplex)
    );
    assert_eq!(
        resolve_plan(5, 1, Some(4), None, None, None, 10, 5),
        Err(ConfigError::SimplexSizeOutOfRange)
    );
    assert_eq!(
        resolve_plan(2, 1, None, Some(1), None, None, 10, 5),
        Err(ConfigError::SimplexSizeOutOfRange)
    );
    assert_eq!(
        resolve_plan(2, 1, None, None, Some(0), None, 10, 5),
        Err(ConfigError::NoEvolutionSteps)
    );
    assert_eq!(
        resolve_plan(2, 2, None, None, None, Some(3), 10, 5),
        Err(ConfigError::MinComplexesOutOfRange)
    );
    assert_eq!(
        resolve_plan(2, 2, None, None, None, Some(0), 10, 5),
        Err(ConfigError::MinComplexesOutOfRange)
    );
    assert_eq!(
        resolve_plan(2, 2, None, None, None, None, 0, 5),
        Err(ConfigError::NoEvaluations)
    );
    assert_eq!(
        resolve_plan(2, usize::MAX, None, None, None, None, 10, 5),
        Err(ConfigError::PopulationTooLarge)
    );
    assert_eq!(
        resolve_plan(usize::MAX, 1, None, None, None, None, 10, 5),
        Err(ConfigError::PopulationTooLarge)
    );
}

#[test]
fn config_errors_explain_themselves() {
    assert_eq!(
        ConfigError::MissingInitialPoint.message(),
        "include_initial requires initial_point"
    );
    assert_eq!(ConfigError::NoComplexes.message(), "complexes must be at least 1");
}

#[test]
fn mismatched_bounds_are_refused() {
    assert_eq!(
        validate_problem(&[true], 2, None),
        Err(ProblemError::BoundsLengthMismatch { lower: 1, upper: 2 })
    );
}

#[test]
fn empty_problem_is_refused() {
    assert_eq!(validate_problem(&[], 0, None), Err(ProblemError::EmptyProblem));
}

#[test]
fn first_invalid_bound_is_reported() {
    assert_eq!(
        validate_problem(&[true, false, false], 3, Some(&[false, false, false])),
        Err(ProblemError::InvalidBounds { index: 1 })
    );
}

#[test]
fn initial_point_of_wrong_length_is_refused() {
    assert_eq!(
        validate_problem(&[true, true], 2, Some(&[true])),
        Err(ProblemError::InitialPointLengthMismatch { expected: 2, actual: 1 })
    );
}

#[test]
fn initial_point_outside_the_bounds_is_refused() {
    assert_eq!(
        validate_problem(&[true, true, true], 3, Some(&[true, true, false])),
        Err(ProblemError::InvalidBounds { index: 2 })
    );
}

#[test]
fn valid_problem_is_accepted() {
    assert_eq!(validate_problem(&[true, true], 2, None), Ok(()));
    assert_eq!(validate_problem(&[true, true], 2, Some(&[true, true])), Ok(()));
}
