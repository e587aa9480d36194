//! The integer settings of the optimiser: their defaults, which depend on
//! the number of parameters, and their validation.
use vstd::prelude::*;

verus! {

/// The resolved integer settings of a run.
#[derive(Clone, Copy, Debug, PartialEq, Eq)]
pub struct Plan {
    /// Number of complexes at the start.
    pub complexes: usize,
    /// Points in each complex.
    pub points_per_complex: usize,
    /// Points in each sub-complex (simplex).
    pub simplex_size: usize,
    /// Evolution steps of each complex before the population is shuffled.
    pub evolution_steps: usize,
    /// The number of complexes is reduced by one after each loop down to this.
    pub min_complexes: usize,
    /// Budget of objective evaluations.
    pub max_evaluations: usize,
    /// Number of loops over which the objective must stop improving.
    pub kstop: usize,
}

/// Why a configuration is refused.
#[derive(Clone, Copy, Debug, PartialEq, Eq)]
pub enum ConfigError {
    NoComplexes,
    TooFewPointsPerComplex,
    SimplexSizeOutOfRange,
    NoEvolutionSteps,
    MinComplexesOutOfRange,
    NoEvaluations,
    PopulationTooLarge,
    MissingInitialPoint,
}

impl ConfigError {
    /// The explanation of the error.
    pub fn message(&self) -> (message: &'static str)
        ensures
            *self == ConfigError::NoComplexes ==> message@ == "complexes must be at least 1"@,
            *self == ConfigError::TooFewPointsPerComplex ==> message@
                == "points_per_complex must be at least 2"@,
            *self == ConfigError::SimplexSizeOutOfRange ==> message@
                == "simplex_size must be between 2 and points_per_complex"@,
            *self == ConfigError::NoEvolutionSteps ==> message@
                == "evolution_steps must be at least 1"@,
            *self == ConfigError::MinComplexesOutOfRange ==> message@
                == "min_complexes must be between 1 and complexes"@,
            *self == ConfigError::NoEvaluations ==> message@
                == "max_evaluations must be at least 1"@,
            *self == ConfigError::PopulationTooLarge ==> message@
                == "population size does not fit in usize"@,
            *self == ConfigError::MissingInitialPoint ==> message@
                == "include_initial requires initial_point"@,
    {
        match self {
            ConfigError::NoComplexes => "complexes must be at least 1",
            ConfigError::TooFewPointsPerComplex => "points_per_complex must be at least 2",
            ConfigError::SimplexSizeOutOfRange => "simplex_size must be between 2 and points_per_complex",
            ConfigError::NoEvolutionSteps => "evolution_steps must be at least 1",
            ConfigError::MinComplexesOutOfRange => "min_complexes must be between 1 and complexes",
            ConfigError::NoEvaluations => "max_evaluations must be at least 1",
            ConfigError::PopulationTooLarge => "population size does not fit in usize",
            ConfigError::MissingInitialPoint => "include_initial requires initial_point",
        }
    }
}

/// A plan that the optimiser can run.
pub open spec fn plan_wf(plan: Plan) -> bool {
    &&& plan.complexes >= 1
    &&& plan.points_per_complex >= 2
    &&& 2 <= plan.simplex_size <= plan.points_per_complex
    &&& plan.evolution_steps >= 1
    &&& 1 <= plan.min_complexes <= plan.complexes
    &&& plan.max_evaluations >= 1
    &&& plan.complexes * plan.points_per_complex <= usize::MAX
}

/// The value of an optional setting, or its default.
pub open spec fn or_default(value: Option<usize>, default: int) -> int {
    match value {
        Some(v) => v as int,
        None => default,
    }
}

/// The settings for a problem with `dimension` parameters: by default
/// `2 * dimension + 1` points per complex, `dimension + 1` points per
/// simplex, as many evolution steps as points per complex and no reduction
/// of the number of complexes. The first setting out of range, in the order
/// of the checks below, is reported.
pub open spec fn resolved(
    dimension: nat,
    complexes: usize,
    points_per_complex: Option<usize>,
    simplex_size: Option<usize>,
    evolution_steps: Option<usize>,
    min_complexes: Option<usize>,
    max_evaluations: usize,
    kstop: usize,
) -> Result<Plan, ConfigError> {
    let ppc = or_default(points_per_complex, (2 * dimension + 1) as int);
    let nps = or_default(simplex_size, (dimension + 1) as int);
    let steps = or_default(evolution_steps, ppc);
    let mings = or_default(min_complexes, complexes as int);
    if complexes < 1 {
        Err(ConfigError::NoComplexes)
    } else if ppc > usize::MAX {
        Err(ConfigError::PopulationTooLarge)
    } else if ppc < 2 {
        Err(ConfigError::TooFewPointsPerComplex)
    } else if nps < 2 || nps > ppc {
        Err(ConfigError::SimplexSizeOutOfRange)
    } else if steps < 1 {
        Err(ConfigError::NoEvolutionSteps)
    } else if mings < 1 || mings > complexes {
        Err(ConfigError::MinComplexesOutOfRange)
    } else if max_evaluations < 1 {
        Err(ConfigError::NoEvaluations)
    } else if complexes * ppc > usize::MAX {
        Err(ConfigError::PopulationTooLarge)
    } else {
        Ok(
            Plan {
                complexes,
                points_per_complex: ppc as usize,
                simplex_size: nps as usize,
                evolution_steps: steps as usize,
                min_complexes: mings as usize,
                max_evaluations,
                kstop,
            },
        )
    }
}

/// The defaults of a resolved plan: the points per complex default to
/// `2 * dimension + 1`, the simplex size to `dimension + 1`, the evolution
/// steps to the plan's points per complex (given or defaulted), the minimum
/// number of complexes to the number of complexes; given settings are kept.
/// A plan is resolved exactly when every setting is in range, and it is then
/// runnable.
pub proof fn lemma_resolved_defaults(
    dimension: nat,
    complexes: usize,
    points_per_complex: Option<usize>,
    simplex_size: Option<usize>,
    evolution_steps: Option<usize>,
    min_complexes: Option<usize>,
    max_evaluations: usize,
    kstop: usize,
)
    ensures
        ({
            let r = resolved(
                dimension,
                complexes,
                points_per_complex,
                simplex_size,
                evolution_steps,
                min_complexes,
                max_evaluations,
                kstop,
            );
            let points: int = match points_per_complex {
                Some(v) => v as int,
                None => (2 * dimension + 1) as int,
            };
            let simplex: int = match simplex_size {
                Some(v) => v as int,
                None => (dimension + 1) as int,
            };
            let steps_per_complex: int = match evolution_steps {
                Some(v) => v as int,
                None => points,
            };
            let minimum: int = match min_complexes {
                Some(v) => v as int,
                None => complexes as int,
            };
            &&& r is Ok <==> (complexes >= 1 && 2 <= points <= usize::MAX && 2 <= simplex <= points
                && steps_per_complex >= 1 && 1 <= minimum <= complexes && max_evaluations >= 1
                && complexes * points <= usize::MAX)
            &&& r matches Ok(p) ==> {
                &&& p.complexes == complexes
                &&& p.points_per_complex == points
                &&& p.simplex_size == simplex
                &&& p.evolution_steps == steps_per_complex
                &&& p.min_complexes == minimum
                &&& p.max_evaluations == max_evaluations
                &&& p.kstop == kstop
                &&& plan_wf(p)
            }
            &&& r matches Ok(p) ==> evolution_steps is None ==> p.evolution_steps == p.points_per_complex
            &&& r matches Ok(p) ==> points_per_complex is None ==> p.points_per_complex == 2 * dimension + 1
            &&& r matches Ok(p) ==> simplex_size is None ==> p.simplex_size == dimension + 1
            &&& r matches Ok(p) ==> min_complexes is None ==> p.min_complexes == complexes
        }),
{
}

/// Fills in the defaults of the settings and checks them.
pub fn resolve_plan(
    dimension: usize,
    complexes: usize,
    points_per_complex: Option<usize>,
    simplex_size: Option<usize>,
    evolution_steps: Option<usize>,
    min_complexes: Option<usize>,
    max_evaluations: usize,
    kstop: usize,
) -> (plan: Result<Plan, ConfigError>)
    ensures
        plan == resolved(
            dimension as nat,
            complexes,
            points_per_complex,
            simplex_size,
            evolution_steps,
            min_complexes,
            max_evaluations,
            kstop,
        ),
        plan matches Ok(p) ==> plan_wf(p),
{
    if complexes < 1 {
        return Err(ConfigError::NoComplexes);
    }
    let ppc = match points_per_complex {
        Some(v) => v,
        None => {
            if dimension > (usize::MAX - 1) / 2 {
                return Err(ConfigError::PopulationTooLarge);
            }
            2 * dimension + 1
        },
    };
    if ppc < 2 {
        return Err(ConfigError::TooFewPointsPerComplex);
    }
    let nps = match simplex_size {
        Some(v) => v,
        None => {
            if dimension >= ppc {
                return Err(ConfigError::SimplexSizeOutOfRange);
            }
            dimension + 1
        },
    };
    if nps < 2 || nps > ppc {
        return Err(ConfigError::SimplexSizeOutOfRange);
    }
    let steps = match evolution_steps {
        Some(v) => v,
        None => ppc,
    };
    if steps < 1 {
        return Err(ConfigError::NoEvolutionSteps);
    }
    let mings = match min_complexes {
        Some(v) => v,
        None => complexes,
    };
    if mings < 1 || mings > complexes {
        return Err(ConfigError::MinComplexesOutOfRange);
    }
    if max_evaluations < 1 {
        return Err(ConfigError::NoEvaluations);
    }
    if ppc > usize::MAX / complexes {
        assert(complexes * ppc > usize::MAX) by (nonlinear_arith)
            requires ppc > usize::MAX / complexes, complexes >= 1;
        return Err(ConfigError::PopulationTooLarge);
    }
    assert(complexes * ppc <= usize::MAX) by (nonlinear_arith)
        requires ppc <= usize::MAX / complexes, complexes >= 1;
    Ok(
        Plan {
            complexes,
            points_per_complex: ppc,
            simplex_size: nps,
            evolution_steps: steps,
            min_complexes: mings,
            max_evaluations,
            kstop,
        },
    )
}

} // verus!
