//! The control flow of SCE-UA as a state machine.
//!
//! The optimiser alternates floating-point work (evaluating the objective,
//! computing reflections, contractions and Gaussian mutations, sorting
//! points by their objective values, computing population statistics) with
//! decisions about what to do next. The decisions live here: the driver
//! hands out an [`Action`], the caller performs it and answers with an
//! [`Event`], from which the driver computes the next action, until it hands
//! out [`Action::Finish`].
//!
//! The sequence of actions is that of Duan's SCE-UA: the population is
//! seeded (with the initial point first when one is included) until it is
//! full or the budget is spent; then each loop evolves every complex for a
//! number of steps with the competitive complex evolution (a reflection of
//! the worst point of a sub-complex, then a contraction, then a Gaussian
//! mutation, stopping at the first trial that is no worse than the worst
//! point), shuffles the complexes back into the population, and tests the
//! budget and the two convergence criteria; complexes are dropped one per
//! loop down to the minimum.
use vstd::prelude::*;
use crate::config::{plan_wf, ConfigError, Plan};
use crate::population::slots_in_range;

verus! {

/// Why the optimiser stopped.
#[derive(Clone, Copy, Debug, PartialEq, Eq)]
pub enum TerminationReason {
    MaxEvaluations,
    ObjectiveConvergence,
    ParameterConvergence,
}

/// The trial points of one competitive complex evolution step, in the order
/// in which they are tried.
#[derive(Clone, Copy, Debug, PartialEq, Eq)]
pub enum Trial {
    /// The worst point reflected through the centroid of the others; when
    /// that falls outside the bounds, a Gaussian mutation instead.
    Reflection,
    /// The point half way between the worst point and the centroid.
    Contraction,
    /// A Gaussian mutation of the best point of the sub-complex.
    Mutation,
}

/// What the caller is asked to do next.
#[derive(Clone, Copy, Debug, PartialEq, Eq)]
pub enum Action {
    /// Evaluate the initial point and add it to the population.
    EvaluateInitialPoint,
    /// Draw a uniform random point within the bounds, evaluate it and add
    /// it to the population.
    EvaluateRandomPoint,
    /// Sort the population from best to worst and record a history entry
    /// for this loop (the loop index, the evaluations so far and the current
    /// number of complexes). After a loop (`loop_index > 0`) the best value
    /// is also recorded as that loop's best.
    RankPopulation { loop_index: usize, evaluations: usize, complexes: usize },
    /// Compute the parameter statistics of the population, keep them for
    /// the mutations of the next loop, and answer whether their geometric
    /// range has fallen to the parameter tolerance.
    CheckParameterConvergence,
    /// Answer whether the best values of loops `earlier` and `latest`
    /// (counted from zero) differ relatively by less than the objective
    /// tolerance.
    CheckObjectiveConvergence { earlier: usize, latest: usize },
    /// Keep the first `to` of the `from` complexes (`compress_complexes`).
    Compress { from: usize, to: usize },
    /// Take complex `complex_index` out of the population (`partition_complex`).
    TakeComplex { complex_index: usize },
    /// Pick the points of a sub-complex of the current complex
    /// (`sample_simplex_indices`).
    SampleSimplex,
    /// Build and evaluate a trial point for the sub-complex, and answer
    /// whether its value is no worse than that of the sub-complex's worst
    /// point.
    EvaluateTrial { trial: Trial },
    /// Put the last trial point in place of the sub-complex's worst point.
    ReplaceWorst,
    /// Write the sub-complex back into the complex and sort the complex.
    ReturnSimplex,
    /// Write complex `complex_index` back into the population (`replace_complex`).
    ReturnComplex { complex_index: usize },
    /// Stop: the best point of the population is the result.
    Finish { reason: TerminationReason, loops: usize, evaluations: usize },
}

/// The caller's answer to an action.
#[derive(Clone, Copy, Debug, PartialEq, Eq)]
pub enum Event {
    /// The action was carried out.
    Done,
    /// The point was evaluated; for a trial, whether it improved on the
    /// worst point of the sub-complex.
    Evaluated { improved: bool },
    /// The convergence test was made, with this outcome.
    Checked { converged: bool },
}

/// The state of a run: the plan, the counters of the run and the action the
/// driver waits to hear about.
#[derive(Clone, Copy, Debug, PartialEq, Eq)]
pub struct Driver {
    pub plan: Plan,
    /// Objective evaluations made so far.
    pub evaluations: usize,
    /// Points in the population.
    pub population: usize,
    /// Loops started so far.
    pub loops: usize,
    /// Current number of complexes.
    pub complexes: usize,
    /// The complex being evolved.
    pub complex_index: usize,
    /// The evolution step within the current complex.
    pub step: usize,
    /// The action last handed out.
    pub pending: Action,
}

/// The points that fill the population.
pub open spec fn target_population(plan: Plan) -> int {
    plan.complexes * plan.points_per_complex
}

/// The next action while seeding: another random point while the
/// population is not full and the budget not spent, else the ranking of
/// the seeded population.
pub open spec fn seed_next(d: Driver) -> Driver {
    if d.population < target_population(d.plan) && d.evaluations < d.plan.max_evaluations {
        Driver { pending: Action::EvaluateRandomPoint, ..d }
    } else {
        Driver {
            pending: Action::RankPopulation {
                loop_index: d.loops,
                evaluations: d.evaluations,
                complexes: d.complexes,
            },
            ..d
        }
    }
}

/// The start of a new loop, with the first complex.
pub open spec fn begin_loop(d: Driver) -> Driver {
    Driver {
        loops: (d.loops + 1) as usize,
        complex_index: 0,
        step: 0,
        pending: Action::TakeComplex { complex_index: 0 },
        ..d
    }
}

/// Within a complex: another evolution step while steps remain and the
/// budget is not spent, else the complex goes back to the population.
pub open spec fn continue_complex(d: Driver) -> Driver {
    if d.step < d.plan.evolution_steps && d.evaluations < d.plan.max_evaluations {
        Driver { pending: Action::SampleSimplex, ..d }
    } else {
        Driver { pending: Action::ReturnComplex { complex_index: d.complex_index }, ..d }
    }
}

pub open spec fn finish(d: Driver, reason: TerminationReason) -> Driver {
    Driver {
        pending: Action::Finish { reason, loops: d.loops, evaluations: d.evaluations },
        ..d
    }
}

/// The trial that follows a trial that did not improve.
pub open spec fn next_trial(trial: Trial) -> Trial {
    match trial {
        Trial::Reflection => Trial::Contraction,
        _ => Trial::Mutation,
    }
}

/// The run of a new driver: seeding starts with the initial point when it
/// is included.
pub open spec fn initial_driver(plan: Plan, include_initial: bool) -> Driver {
    let d = Driver {
        plan,
        evaluations: 0,
        population: 0,
        loops: 0,
        complexes: plan.complexes,
        complex_index: 0,
        step: 0,
        pending: Action::EvaluateInitialPoint,
    };
    if include_initial {
        d
    } else {
        seed_next(d)
    }
}

/// The event answers the pending action: evaluations are answered with
/// `Evaluated`, convergence tests with `Checked`, other actions with
/// `Done`; a finished run takes no event.
pub open spec fn expects(d: Driver, e: Event) -> bool {
    match d.pending {
        Action::EvaluateInitialPoint => e is Evaluated,
        Action::EvaluateRandomPoint => e is Evaluated,
        Action::EvaluateTrial { .. } => e is Evaluated,
        Action::CheckParameterConvergence => e is Checked,
        Action::CheckObjectiveConvergence { .. } => e is Checked,
        Action::Finish { .. } => false,
        _ => e is Done,
    }
}

/// The state after the caller answers the pending action with `e`.
pub open spec fn next(d: Driver, e: Event) -> Driver {
    let plan = d.plan;
    match d.pending {
        Action::EvaluateInitialPoint => seed_next(
            Driver {
                evaluations: (d.evaluations + 1) as usize,
                population: (d.population + 1) as usize,
                ..d
            },
        ),
        Action::EvaluateRandomPoint => seed_next(
            Driver {
                evaluations: (d.evaluations + 1) as usize,
                population: (d.population + 1) as usize,
                ..d
            },
        ),
        Action::RankPopulation { .. } => if d.evaluations >= plan.max_evaluations {
            finish(d, TerminationReason::MaxEvaluations)
        } else if d.loops > plan.kstop {
            Driver {
                pending: Action::CheckObjectiveConvergence {
                    earlier: (d.loops - plan.kstop - 1) as usize,
                    latest: (d.loops - 1) as usize,
                },
                ..d
            }
        } else {
            Driver { pending: Action::CheckParameterConvergence, ..d }
        },
        Action::CheckObjectiveConvergence { .. } => if e matches Event::Checked { converged: true } {
            finish(d, TerminationReason::ObjectiveConvergence)
        } else {
            Driver { pending: Action::CheckParameterConvergence, ..d }
        },
        Action::CheckParameterConvergence => if e matches Event::Checked { converged: true } {
            finish(d, TerminationReason::ParameterConvergence)
        } else if d.loops > 0 && d.complexes > plan.min_complexes {
            Driver {
                pending: Action::Compress { from: d.complexes, to: (d.complexes - 1) as usize },
                ..d
            }
        } else {
            begin_loop(d)
        },
        Action::Compress { from, to } => begin_loop(
            Driver { complexes: to, population: (to * plan.points_per_complex) as usize, ..d },
        ),
        Action::TakeComplex { .. } => continue_complex(Driver { step: 0, ..d }),
        Action::SampleSimplex => Driver {
            pending: Action::EvaluateTrial { trial: Trial::Reflection },
            ..d
        },
        Action::EvaluateTrial { trial } => {
            let d1 = Driver { evaluations: (d.evaluations + 1) as usize, ..d };
            if e matches Event::Evaluated { improved: true } || trial == Trial::Mutation {
                Driver { pending: Action::ReplaceWorst, ..d1 }
            } else if d1.evaluations >= plan.max_evaluations {
                Driver { pending: Action::ReturnSimplex, ..d1 }
            } else {
                Driver { pending: Action::EvaluateTrial { trial: next_trial(trial) }, ..d1 }
            }
        },
        Action::ReplaceWorst => Driver { pending: Action::ReturnSimplex, ..d },
        Action::ReturnSimplex => continue_complex(Driver { step: (d.step + 1) as usize, ..d }),
        Action::ReturnComplex { complex_index } => if d.evaluations >= plan.max_evaluations
            || complex_index + 1 >= d.complexes {
            Driver {
                pending: Action::RankPopulation {
                    loop_index: d.loops,
                    evaluations: d.evaluations,
                    complexes: d.complexes,
                },
                ..d
            }
        } else {
            Driver {
                complex_index: (complex_index + 1) as usize,
                pending: Action::TakeComplex { complex_index: (complex_index + 1) as usize },
                ..d
            }
        },
        Action::Finish { .. } => d,
    }
}

/// A runnable plan fills the population with at least two points.
proof fn lemma_target_at_least_two(plan: Plan)
    requires
        plan_wf(plan),
    ensures
        target_population(plan) >= 2,
{
    assert(plan.complexes * plan.points_per_complex >= 2) by (nonlinear_arith)
        requires plan.complexes >= 1, plan.points_per_complex >= 2;
}

/// Each answered action keeps the counters of a run consistent.
pub proof fn lemma_next_wf(d: Driver, e: Event)
    requires
        d.wf(),
        expects(d, e),
    ensures
        next(d, e).wf(),
{
    lemma_target_at_least_two(d.plan);
    if let Action::Compress { from, to } = d.pending {
        assert(to * d.plan.points_per_complex <= d.complexes * d.plan.points_per_complex)
            by (nonlinear_arith)
            requires to <= d.complexes;
    }
}

/// How far the pending action is from the next objective evaluation (or
/// from the end of the run) along the actions that evaluate nothing.
pub open spec fn stage_rank(a: Action) -> nat {
    match a {
        Action::Finish { .. } => 0,
        Action::EvaluateTrial { .. } => 1,
        Action::SampleSimplex => 2,
        Action::TakeComplex { .. } => 3,
        Action::Compress { .. } => 4,
        Action::CheckParameterConvergence => 5,
        Action::CheckObjectiveConvergence { .. } => 6,
        Action::RankPopulation { .. } => 7,
        Action::ReturnComplex { .. } => 8,
        Action::ReturnSimplex => 9,
        Action::ReplaceWorst => 10,
        Action::EvaluateRandomPoint => 11,
        Action::EvaluateInitialPoint => 11,
    }
}

/// A bound on the number of actions left in the run: sixteen per
/// evaluation left in the budget, plus the rank of the pending action.
pub open spec fn remaining(d: Driver) -> nat {
    ((d.plan.max_evaluations - d.evaluations) * 16 + stage_rank(d.pending)) as nat
}

/// Every answered action brings the run closer to its end: `remaining`
/// strictly decreases.
pub proof fn lemma_progress(d: Driver, e: Event)
    requires
        d.wf(),
        expects(d, e),
    ensures
        remaining(next(d, e)) < remaining(d),
{
}

/// The state after answering `events` in turn.
pub open spec fn run_end(d: Driver, events: Seq<Event>) -> Driver
    decreases events.len(),
{
    if events.len() == 0 {
        d
    } else {
        run_end(next(d, events[0]), events.drop_first())
    }
}

/// Each of `events` answers the action pending when it comes.
pub open spec fn valid_run(d: Driver, events: Seq<Event>) -> bool
    decreases events.len(),
{
    events.len() == 0 || (expects(d, events[0]) && valid_run(next(d, events[0]), events.drop_first()))
}

/// The number of evaluation results among `events`.
pub open spec fn count_evaluations(events: Seq<Event>) -> nat
    decreases events.len(),
{
    if events.len() == 0 {
        0
    } else {
        (if events[0] is Evaluated { 1nat } else { 0nat }) + count_evaluations(events.drop_first())
    }
}

/// Every run stops: from a consistent state, a run answers at most
/// `remaining(d)` actions, and ends in a consistent state.
pub proof fn lemma_runs_are_bounded(d: Driver, events: Seq<Event>)
    requires
        d.wf(),
        valid_run(d, events),
    ensures
        events.len() <= remaining(d),
        run_end(d, events).wf(),
    decreases events.len(),
{
    if events.len() > 0 {
        lemma_next_wf(d, events[0]);
        lemma_progress(d, events[0]);
        lemma_runs_are_bounded(next(d, events[0]), events.drop_first());
    }
}

/// The driver counts every evaluation it is told of, and never asks for an
/// evaluation beyond the budget: over any run from a fresh start the
/// objective is evaluated at most `max_evaluations` times.
pub proof fn lemma_evaluations_within_budget(plan: Plan, include_initial: bool, events: Seq<Event>)
    requires
        plan_wf(plan),
        valid_run(initial_driver(plan, include_initial), events),
    ensures
        count_evaluations(events) == run_end(initial_driver(plan, include_initial), events).evaluations,
        count_evaluations(events) <= plan.max_evaluations,
{
    lemma_initial_wf(plan, include_initial);
    lemma_counted_evaluations(initial_driver(plan, include_initial), events);
    lemma_runs_are_bounded(initial_driver(plan, include_initial), events);
}

proof fn lemma_counted_evaluations(d: Driver, events: Seq<Event>)
    requires
        d.wf(),
        valid_run(d, events),
    ensures
        run_end(d, events).evaluations == d.evaluations + count_evaluations(events),
        run_end(d, events).plan == d.plan,
    decreases events.len(),
{
    if events.len() > 0 {
        lemma_next_wf(d, events[0]);
        lemma_counted_evaluations(next(d, events[0]), events.drop_first());
    }
}

/// What the driver asks for fits the population: the complex it takes or
/// writes back lies within the population, a compression keeps complexes
/// that exist and drops exactly one, a sub-complex is no larger than a
/// complex and has a worst point and at least one other, and the loops
/// compared for objective convergence are `kstop` loops apart.
pub proof fn lemma_requests_fit(d: Driver)
    requires
        d.wf(),
    ensures
        d.pending matches Action::TakeComplex { complex_index } ==> slots_in_range(
            d.population as nat,
            complex_index as nat,
            d.complexes as nat,
            d.plan.points_per_complex as nat,
        ),
        d.pending matches Action::ReturnComplex { complex_index } ==> slots_in_range(
            d.population as nat,
            complex_index as nat,
            d.complexes as nat,
            d.plan.points_per_complex as nat,
        ),
        d.pending matches Action::Compress { from, to } ==> {
            &&& to + 1 == from
            &&& to >= d.plan.min_complexes >= 1
            &&& slots_in_range(
                d.population as nat,
                (to - 1) as nat,
                from as nat,
                d.plan.points_per_complex as nat,
            )
        },
        d.pending is SampleSimplex ==> 2 <= d.plan.simplex_size <= d.plan.points_per_complex,
        d.pending matches Action::CheckObjectiveConvergence { earlier, latest } ==> earlier + d.plan.kstop
            == latest && latest < d.loops,
{
    let ppc = d.plan.points_per_complex as int;
    match d.pending {
        Action::TakeComplex { complex_index } => {
            assert((ppc - 1) * d.complexes + complex_index < d.complexes * ppc) by (nonlinear_arith)
                requires complex_index < d.complexes, ppc >= 1;
        },
        Action::ReturnComplex { complex_index } => {
            assert((ppc - 1) * d.complexes + complex_index < d.complexes * ppc) by (nonlinear_arith)
                requires complex_index < d.complexes, ppc >= 1;
        },
        Action::Compress { from, to } => {
            assert((ppc - 1) * from + (to - 1) < from * ppc) by (nonlinear_arith)
                requires to <= from, to >= 1, ppc >= 1;
        },
        _ => {},
    }
}

/// The number of points the population is seeded with: all of it, unless
/// the budget runs out first. The initial point, when included, is one of
/// them.
pub open spec fn seeding_size(plan: Plan) -> int {
    if target_population(plan) <= plan.max_evaluations {
        target_population(plan)
    } else {
        plan.max_evaluations as int
    }
}

/// The number of points of the initial population, for a caller that
/// evaluates them all at once.
pub fn initial_population_size(plan: &Plan) -> (size: usize)
    requires
        plan_wf(*plan),
    ensures
        size == seeding_size(*plan),
{
    let target = plan.complexes * plan.points_per_complex;
    if target <= plan.max_evaluations {
        target
    } else {
        plan.max_evaluations
    }
}

/// The state after `count` evaluation results.
pub open spec fn after_evaluations(d: Driver, count: nat) -> Driver
    decreases count,
{
    if count == 0 {
        d
    } else {
        next(after_evaluations(d, (count - 1) as nat), Event::Evaluated { improved: false })
    }
}

/// Seeding asks for exactly `seeding_size(plan)` evaluations, one after the
/// other (the initial point first when it is included), and then for the
/// ranking of the seeded population: the population is the same whether
/// its points are evaluated one by one or all at once.
pub proof fn lemma_seeding_size(plan: Plan, include_initial: bool, count: nat)
    requires
        plan_wf(plan),
        count <= seeding_size(plan),
    ensures
        after_evaluations(initial_driver(plan, include_initial), count).evaluations == count,
        after_evaluations(initial_driver(plan, include_initial), count).population == count,
        count < seeding_size(plan) ==> {
            let a = after_evaluations(initial_driver(plan, include_initial), count).pending;
            if count == 0 && include_initial {
                a is EvaluateInitialPoint
            } else {
                a is EvaluateRandomPoint
            }
        },
        count == seeding_size(plan) ==> after_evaluations(initial_driver(plan, include_initial), count).pending
            == (Action::RankPopulation {
                loop_index: 0,
                evaluations: count as usize,
                complexes: plan.complexes,
            }),
        after_evaluations(initial_driver(plan, include_initial), count).loops == 0,
        after_evaluations(initial_driver(plan, include_initial), count).complexes == plan.complexes,
        after_evaluations(initial_driver(plan, include_initial), count).plan == plan,
    decreases count,
{
    lemma_target_at_least_two(plan);
    if count > 0 {
        lemma_seeding_size(plan, include_initial, (count - 1) as nat);
    }
}

/// After a ranking the run stops if the budget is spent; otherwise, when
/// more than `kstop` loops have run, the best values of the latest loop and
/// of the loop `kstop` before it are compared, and else the parameters'
/// convergence is tested. The counters do not change.
pub proof fn lemma_after_ranking(d: Driver)
    requires
        d.wf(),
        d.pending is RankPopulation,
    ensures
        ({
            let n = next(d, Event::Done);
            &&& n.evaluations == d.evaluations && n.loops == d.loops && n.complexes == d.complexes
                && n.population == d.population
            &&& d.evaluations >= d.plan.max_evaluations ==> n.pending == (Action::Finish {
                reason: TerminationReason::MaxEvaluations,
                loops: d.loops,
                evaluations: d.evaluations,
            })
            &&& d.evaluations < d.plan.max_evaluations && d.loops > d.plan.kstop ==> n.pending == (
            Action::CheckObjectiveConvergence {
                earlier: (d.loops - d.plan.kstop - 1) as usize,
                latest: (d.loops - 1) as usize,
            })
            &&& d.evaluations < d.plan.max_evaluations && d.loops <= d.plan.kstop ==> n.pending
                == Action::CheckParameterConvergence
        }),
{
}

/// An objective test that finds convergence stops the run; one that does
/// not is always followed by the parameter test.
pub proof fn lemma_after_objective_test(d: Driver, converged: bool)
    requires
        d.wf(),
        d.pending is CheckObjectiveConvergence,
    ensures
        ({
            let n = next(d, Event::Checked { converged });
            &&& n.evaluations == d.evaluations && n.loops == d.loops && n.complexes == d.complexes
            &&& converged ==> n.pending == (Action::Finish {
                reason: TerminationReason::ObjectiveConvergence,
                loops: d.loops,
                evaluations: d.evaluations,
            })
            &&& !converged ==> n.pending == Action::CheckParameterConvergence
        }),
{
}

/// A parameter test that finds convergence stops the run. Otherwise, after
/// a loop with more complexes than the minimum, the worst complex is
/// dropped; and else the next loop starts with its first complex.
pub proof fn lemma_after_parameter_test(d: Driver, converged: bool)
    requires
        d.wf(),
        d.pending is CheckParameterConvergence,
    ensures
        ({
            let n = next(d, Event::Checked { converged });
            &&& converged ==> n.pending == (Action::Finish {
                reason: TerminationReason::ParameterConvergence,
                loops: d.loops,
                evaluations: d.evaluations,
            }) && n.loops == d.loops
            &&& !converged && d.loops >= 1 && d.complexes > d.plan.min_complexes ==> n.pending == (
            Action::Compress { from: d.complexes, to: (d.complexes - 1) as usize }) && n.loops
                == d.loops && n.complexes == d.complexes
            &&& !converged && (d.loops == 0 || d.complexes == d.plan.min_complexes) ==> {
                &&& n.pending == (Action::TakeComplex { complex_index: 0 })
                &&& n.loops == d.loops + 1
                &&& n.complex_index == 0
                &&& n.complexes == d.complexes
                &&& n.population == d.population
            }
            &&& n.evaluations == d.evaluations
        }),
{
}

/// A compression leaves `to` complexes of full size and starts the next loop
/// with its first complex.
pub proof fn lemma_after_compression(d: Driver)
    requires
        d.wf(),
        d.pending is Compress,
    ensures
        ({
            let n = next(d, Event::Done);
            &&& n.complexes == d.complexes - 1
            &&& n.complexes >= d.plan.min_complexes
            &&& n.population == n.complexes * d.plan.points_per_complex
            &&& n.loops == d.loops + 1
            &&& n.complex_index == 0
            &&& n.pending == (Action::TakeComplex { complex_index: 0 })
            &&& n.evaluations == d.evaluations
        }),
{
    lemma_next_wf(d, Event::Done);
}

/// A new loop, and a compression, come only out of a parameter test that
/// did not find convergence: every loop that goes on is preceded by the
/// parameter test, and the number of complexes never changes otherwise.
pub proof fn lemma_loops_follow_parameter_test(d: Driver, e: Event)
    requires
        d.wf(),
        expects(d, e),
    ensures
        ({
            let n = next(d, e);
            &&& n.loops != d.loops ==> n.loops == d.loops + 1 && (d.pending
                == Action::CheckParameterConvergence || d.pending is Compress)
            &&& n.pending is Compress ==> d.pending == Action::CheckParameterConvergence && e
                == (Event::Checked { converged: false })
            &&& n.complexes != d.complexes ==> d.pending is Compress && n.complexes + 1 == d.complexes
        }),
{
}

/// The evolution steps of a complex: taking a complex out starts at step
/// zero, each written-back sub-complex advances the step by exactly one,
/// and another sub-complex is sampled while steps remain and the budget is
/// not spent; otherwise the complex goes back to the population. The other
/// actions within a complex leave the step alone.
pub proof fn lemma_evolution_steps(d: Driver, e: Event)
    requires
        d.wf(),
        expects(d, e),
    ensures
        ({
            let n = next(d, e);
            let steps = d.plan.evolution_steps;
            let max = d.plan.max_evaluations;
            &&& d.pending is TakeComplex ==> n.step == 0 && n.complex_index == d.complex_index && (
            if n.evaluations < max {
                n.pending == Action::SampleSimplex
            } else {
                n.pending == (Action::ReturnComplex { complex_index: d.complex_index })
            })
            &&& d.pending is ReturnSimplex ==> n.step == d.step + 1 && n.complex_index
                == d.complex_index && (if d.step + 1 < steps && d.evaluations < max {
                n.pending == Action::SampleSimplex
            } else {
                n.pending == (Action::ReturnComplex { complex_index: d.complex_index })
            })
            &&& (d.pending is SampleSimplex || d.pending is EvaluateTrial || d.pending is ReplaceWorst)
                ==> n.step == d.step && n.complex_index == d.complex_index
        }),
{
}

/// The trials of one evolution step: each counts one evaluation; a trial no
/// worse than the worst point, or the Gaussian mutation whatever its value,
/// replaces the worst point; a worse reflection is followed by the
/// contraction and a worse contraction by the mutation, unless the budget is
/// spent, in which case the sub-complex goes back unchanged.
pub proof fn lemma_trials(d: Driver, trial: Trial, improved: bool)
    requires
        d.wf(),
        d.pending == (Action::EvaluateTrial { trial }),
    ensures
        ({
            let n = next(d, Event::Evaluated { improved });
            &&& n.evaluations == d.evaluations + 1
            &&& n.step == d.step
            &&& (improved || trial == Trial::Mutation) ==> n.pending == Action::ReplaceWorst
            &&& !improved && trial != Trial::Mutation && d.evaluations + 1 >= d.plan.max_evaluations
                ==> n.pending == Action::ReturnSimplex
            &&& !improved && trial == Trial::Reflection && d.evaluations + 1 < d.plan.max_evaluations
                ==> n.pending == (Action::EvaluateTrial { trial: Trial::Contraction })
            &&& !improved && trial == Trial::Contraction && d.evaluations + 1 < d.plan.max_evaluations
                ==> n.pending == (Action::EvaluateTrial { trial: Trial::Mutation })
        }),
{
}

/// A complex written back is followed by the next complex while complexes
/// remain and the budget is not spent, and otherwise by the ranking that
/// ends the loop.
pub proof fn lemma_after_complex(d: Driver)
    requires
        d.wf(),
        d.pending is ReturnComplex,
    ensures
        ({
            let n = next(d, Event::Done);
            &&& d.evaluations < d.plan.max_evaluations && d.complex_index + 1 < d.complexes ==> n.pending
                == (Action::TakeComplex { complex_index: (d.complex_index + 1) as usize })
                && n.complex_index == d.complex_index + 1
            &&& !(d.evaluations < d.plan.max_evaluations && d.complex_index + 1 < d.complexes)
                ==> n.pending == (Action::RankPopulation {
                loop_index: d.loops,
                evaluations: d.evaluations,
                complexes: d.complexes,
            })
            &&& n.loops == d.loops && n.evaluations == d.evaluations
        }),
{
}

/// Seeding: each evaluated point joins the population and counts one
/// evaluation; random points follow while the population is not full and
/// the budget not spent, and then the seeded population is ranked.
pub proof fn lemma_seeding_step(d: Driver, improved: bool)
    requires
        d.wf(),
        d.pending is EvaluateInitialPoint || d.pending is EvaluateRandomPoint,
    ensures
        ({
            let n = next(d, Event::Evaluated { improved });
            &&& n.evaluations == d.evaluations + 1
            &&& n.population == d.population + 1
            &&& n.loops == 0
            &&& if n.population < d.plan.complexes * d.plan.points_per_complex && n.evaluations
                < d.plan.max_evaluations {
                n.pending == Action::EvaluateRandomPoint
            } else {
                n.pending == (Action::RankPopulation {
                    loop_index: 0,
                    evaluations: n.evaluations,
                    complexes: d.plan.complexes,
                })
            }
        }),
{
}

/// A fresh run has made no evaluation, has an empty population, no loop
/// and all its complexes, and starts with the initial point when it is
/// included and with a random point otherwise.
pub proof fn lemma_fresh_run(plan: Plan, include_initial: bool)
    requires
        plan_wf(plan),
    ensures
        ({
            let d = initial_driver(plan, include_initial);
            &&& d.plan == plan
            &&& d.evaluations == 0 && d.population == 0 && d.loops == 0
            &&& d.complexes == plan.complexes
            &&& include_initial ==> d.pending == Action::EvaluateInitialPoint
            &&& !include_initial ==> d.pending == Action::EvaluateRandomPoint
        }),
{
    lemma_target_at_least_two(plan);
}

/// A fresh run is consistent.
pub proof fn lemma_initial_wf(plan: Plan, include_initial: bool)
    requires
        plan_wf(plan),
    ensures
        initial_driver(plan, include_initial).wf(),
{
    lemma_target_at_least_two(plan);
}

impl Driver {
    /// The counters of the run are consistent with the pending action.
    pub open spec fn wf(&self) -> bool {
        let plan = self.plan;
        let max = plan.max_evaluations;
        let in_loop = {
            &&& self.loops >= 1
            &&& self.population == self.complexes * plan.points_per_complex
        };
        let in_complex = {
            &&& in_loop
            &&& self.complex_index < self.complexes
        };
        let in_step = {
            &&& in_complex
            &&& self.step < plan.evolution_steps
        };
        let seeding = {
            &&& self.loops == 0
            &&& self.complexes == plan.complexes
            &&& self.population == self.evaluations
        };
        &&& plan_wf(plan)
        &&& self.evaluations <= max
        &&& plan.min_complexes <= self.complexes <= plan.complexes
        &&& match self.pending {
            Action::EvaluateInitialPoint => seeding && self.evaluations == 0,
            Action::EvaluateRandomPoint => {
                &&& seeding
                &&& self.population < target_population(plan)
                &&& self.evaluations < max
            },
            Action::RankPopulation { loop_index, evaluations, complexes } => {
                &&& loop_index == self.loops
                &&& evaluations == self.evaluations
                &&& complexes == self.complexes
                &&& self.loops == 0 ==> {
                    &&& seeding
                    &&& 1 <= self.population <= target_population(plan)
                    &&& self.population == target_population(plan) || self.evaluations == max
                }
                &&& self.loops > 0 ==> {
                    &&& in_loop
                    &&& self.evaluations < max ==> self.loops <= self.evaluations
                }
            },
            Action::CheckParameterConvergence => {
                &&& self.evaluations < max
                &&& self.loops == 0 ==> seeding && self.population == target_population(plan)
                &&& self.loops > 0 ==> in_loop && self.loops <= self.evaluations
            },
            Action::CheckObjectiveConvergence { earlier, latest } => {
                &&& in_loop
                &&& self.loops > plan.kstop
                &&& earlier == self.loops - plan.kstop - 1
                &&& latest == self.loops - 1
                &&& self.evaluations < max
                &&& self.loops <= self.evaluations
            },
            Action::Compress { from, to } => {
                &&& in_loop
                &&& from == self.complexes
                &&& to == self.complexes - 1
                &&& self.complexes > plan.min_complexes
                &&& self.evaluations < max
                &&& self.loops <= self.evaluations
            },
            Action::TakeComplex { complex_index } => {
                &&& in_complex
                &&& complex_index == self.complex_index
                &&& self.evaluations < max
                &&& complex_index == 0 ==> self.loops <= self.evaluations + 1
                &&& complex_index > 0 ==> self.loops <= self.evaluations
            },
            Action::SampleSimplex => {
                &&& in_step
                &&& self.evaluations < max
                &&& self.complex_index == 0 && self.step == 0 ==> self.loops <= self.evaluations + 1
                &&& !(self.complex_index == 0 && self.step == 0) ==> self.loops <= self.evaluations
            },
            Action::EvaluateTrial { trial } => {
                &&& in_step
                &&& self.evaluations < max
                &&& self.loops <= self.evaluations + 1
                &&& (trial != Trial::Reflection || !(self.complex_index == 0 && self.step == 0))
                    ==> self.loops <= self.evaluations
            },
            Action::ReplaceWorst => in_step && self.loops <= self.evaluations,
            Action::ReturnSimplex => in_step && self.loops <= self.evaluations,
            Action::ReturnComplex { complex_index } => {
                &&& in_complex
                &&& complex_index == self.complex_index
                &&& self.loops <= self.evaluations
            },
            Action::Finish { loops, evaluations, .. } => {
                &&& loops == self.loops
                &&& evaluations == self.evaluations
            },
        }
    }

    /// Starts a run of the plan; `include_initial` asks for the initial
    /// point to be the first member of the population, which needs one.
    pub fn start(plan: Plan, include_initial: bool, has_initial_point: bool) -> (started: Result<
        Driver,
        ConfigError,
    >)
        requires
            plan_wf(plan),
        ensures
            include_initial && !has_initial_point ==> started == Err::<Driver, ConfigError>(
                ConfigError::MissingInitialPoint,
            ),
            !(include_initial && !has_initial_point) ==> started == Ok::<Driver, ConfigError>(
                initial_driver(plan, include_initial),
            ),
            started matches Ok(d) ==> d.wf(),
    {
        if include_initial && !has_initial_point {
            return Err(ConfigError::MissingInitialPoint);
        }
        proof {
            lemma_target_at_least_two(plan);
        }
        let d = Driver {
            plan,
            evaluations: 0,
            population: 0,
            loops: 0,
            complexes: plan.complexes,
            complex_index: 0,
            step: 0,
            pending: Action::EvaluateInitialPoint,
        };
        if include_initial {
            Ok(d)
        } else {
            Ok(d.seed_next())
        }
    }

    fn seed_next(self) -> (d: Driver)
        requires
            plan_wf(self.plan),
        ensures
            d == seed_next(self),
    {
        if self.population < self.plan.complexes * self.plan.points_per_complex
            && self.evaluations < self.plan.max_evaluations {
            Driver { pending: Action::EvaluateRandomPoint, ..self }
        } else {
            Driver {
                pending: Action::RankPopulation {
                    loop_index: self.loops,
                    evaluations: self.evaluations,
                    complexes: self.complexes,
                },
                ..self
            }
        }
    }

    fn continue_complex(self) -> (d: Driver)
        ensures
            d == continue_complex(self),
    {
        if self.step < self.plan.evolution_steps && self.evaluations < self.plan.max_evaluations {
            Driver { pending: Action::SampleSimplex, ..self }
        } else {
            Driver { pending: Action::ReturnComplex { complex_index: self.complex_index }, ..self }
        }
    }

    fn begin_loop(self) -> (d: Driver)
        requires
            self.loops < usize::MAX,
        ensures
            d == begin_loop(self),
    {
        Driver {
            loops: self.loops + 1,
            complex_index: 0,
            step: 0,
            pending: Action::TakeComplex { complex_index: 0 },
            ..self
        }
    }

    fn finish(self, reason: TerminationReason) -> (d: Driver)
        ensures
            d == finish(self, reason),
    {
        Driver {
            pending: Action::Finish { reason, loops: self.loops, evaluations: self.evaluations },
            ..self
        }
    }

    /// Takes the caller's answer to the pending action and hands out the
    /// next action.
    pub fn answer(&mut self, event: Event) -> (action: Action)
        requires
            old(self).wf(),
            expects(*old(self), event),
        ensures
            *final(self) == next(*old(self), event),
            final(self).wf(),
            action == final(self).pending,
    {
        let d = *self;
        let plan = d.plan;
        let max = plan.max_evaluations;
        let ppc = plan.points_per_complex;
        let after = match d.pending {
            Action::EvaluateInitialPoint | Action::EvaluateRandomPoint => {
                proof {
                    lemma_target_at_least_two(plan);
                }
                assert(d.population < target_population(plan));
                Driver { evaluations: d.evaluations + 1, population: d.population + 1, ..d }.seed_next()
            },
            Action::RankPopulation { .. } => {
                if d.evaluations >= max {
                    d.finish(TerminationReason::MaxEvaluations)
                } else if d.loops > plan.kstop {
                    Driver {
                        pending: Action::CheckObjectiveConvergence {
                            earlier: d.loops - plan.kstop - 1,
                            latest: d.loops - 1,
                        },
                        ..d
                    }
                } else {
                    Driver { pending: Action::CheckParameterConvergence, ..d }
                }
            },
            Action::CheckObjectiveConvergence { .. } => {
                if let Event::Checked { converged: true } = event {
                    d.finish(TerminationReason::ObjectiveConvergence)
                } else {
                    Driver { pending: Action::CheckParameterConvergence, ..d }
                }
            },
            Action::CheckParameterConvergence => {
                if let Event::Checked { converged: true } = event {
                    d.finish(TerminationReason::ParameterConvergence)
                } else if d.loops > 0 && d.complexes > plan.min_complexes {
                    Driver { pending: Action::Compress { from: d.complexes, to: d.complexes - 1 }, ..d }
                } else {
                    d.begin_loop()
                }
            },
            Action::Compress { from, to } => {
                assert(to * ppc <= d.complexes * ppc) by (nonlinear_arith)
                    requires to <= d.complexes;
                Driver { complexes: to, population: to * ppc, ..d }.begin_loop()
            },
            Action::TakeComplex { .. } => Driver { step: 0, ..d }.continue_complex(),
            Action::SampleSimplex => Driver {
                pending: Action::EvaluateTrial { trial: Trial::Reflection },
                ..d
            },
            Action::EvaluateTrial { trial } => {
                let d1 = Driver { evaluations: d.evaluations + 1, ..d };
                let improved = match event {
                    Event::Evaluated { improved } => improved,
                    _ => false,
                };
                let last = match trial {
                    Trial::Mutation => true,
                    _ => false,
                };
                if improved || last {
                    Driver { pending: Action::ReplaceWorst, ..d1 }
                } else if d1.evaluations >= max {
                    Driver { pending: Action::ReturnSimplex, ..d1 }
                } else {
                    let following = match trial {
                        Trial::Reflection => Trial::Contraction,
                        _ => Trial::Mutation,
                    };
                    Driver { pending: Action::EvaluateTrial { trial: following }, ..d1 }
                }
            },
            Action::ReplaceWorst => Driver { pending: Action::ReturnSimplex, ..d },
            Action::ReturnSimplex => Driver { step: d.step + 1, ..d }.continue_complex(),
            Action::ReturnComplex { complex_index } => {
                if d.evaluations >= max || complex_index + 1 >= d.complexes {
                    Driver {
                        pending: Action::RankPopulation {
                            loop_index: d.loops,
                            evaluations: d.evaluations,
                            complexes: d.complexes,
                        },
                        ..d
                    }
                } else {
                    Driver {
                        complex_index: complex_index + 1,
                        pending: Action::TakeComplex { complex_index: complex_index + 1 },
                        ..d
                    }
                }
            },
            Action::Finish { .. } => d,
        };
        *self = after;
        after.pending
    }
}

} // verus!
