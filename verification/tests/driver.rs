use sceua::{
    initial_population_size, resolve_plan, Action, ConfigError, Driver, Event, Plan,
    TerminationReason, Trial,
};

fn plan(complexes: usize, points_per_complex: usize, max_evaluations: usize, kstop: usize) -> Plan {
    Plan {
        complexes,
        points_per_complex,
        simplex_size: 2,
        evolution_steps: 1,
        min_complexes: 1,
        max_evaluations,
        kstop,
    }
}

/// Answers the pending action the way a run that never converges and whose
/// trials never improve would, until `stop` holds of the pending action.
fn drive_until(driver: &mut Driver, stop: impl Fn(&Action) -> bool) -> Vec<Action> {
    let mut seen = Vec::new();
    let mut action = driver.pending;
    while !stop(&action) {
        seen.push(action);
        let event = match action {
            Action::EvaluateInitialPoint
            | Action::EvaluateRandomPoint
            | Action::EvaluateTrial { .. } => Event::Evaluated { improved: false },
            Action::CheckParameterConvergence | Action::CheckObjectiveConvergence { .. } => {
                Event::Checked { converged: false }
            }
            Action::Finish { .. } => panic!("the run finished early"),
            _ => Event::Done,
        };
        action = driver.answer(event);
    }
    seen
}

fn at_simplex(max_evaluations: usize) -> Driver {
    let mut driver = Driver::start(plan(1, 3, max_evaluations, 5), false, false).unwrap();
    drive_until(&mut driver, |a| matches!(a, Action::EvaluateTrial { .. }));
    assert_eq!(driver.pending, Action::EvaluateTrial { trial: Trial::Reflection });
    driver
}

#[test]
fn seeding_fills_the_population_then_ranks_it() {
    let mut driver = Driver::start(plan(2, 3, 100, 5), false, false).unwrap();
    let seen = drive_until(&mut driver, |a| matches!(a, Action::RankPopulation { .. }));
    assert_eq!(seen, vec![Action::EvaluateRandomPoint; 6]);
    assert_eq!(
        driver.pending,
        Action::RankPopulation { loop_index: 0, evaluations: 6, complexes: 2 }
    );
}

#[test]
fn seeding_starts_with_the_initial_point() {
    let driver = Driver::start(plan(2, 3, 100, 5), true, true).unwrap();
    assert_eq!(driver.pending, Action::EvaluateInitialPoint);
}

#[test]
fn including_a_missing_initial_point_is_refused() {
    assert_eq!(
        Driver::start(plan(2, 3, 100, 5), true, false),
        Err(ConfigError::MissingInitialPoint)
    );
}

#[test]
fn seeding_stops_when_the_budget_is_spent() {
    let mut driver = Driver::start(plan(2, 3, 4, 5), false, false).unwrap();
    drive_until(&mut driver, |a| matches!(a, Action::RankPopulation { .. }));
    assert_eq!(
        driver.pending,
        Action::RankPopulation { loop_index: 0, evaluations: 4, complexes: 2 }
    );
    assert_eq!(
        driver.answer(Event::Done),
        Action::Finish {
            reason: TerminationReason::MaxEvaluations,
            loops: 0,
            evaluations: 4
        }
    );
}

#[test]
fn initial_population_size_matches_seeding() {
    assert_eq!(initial_population_size(&plan(2, 3, 100, 5)), 6);
    assert_eq!(initial_population_size(&plan(2, 3, 4, 5)), 4);
    let mut driver = Driver::start(plan(3, 5, 100, 5), true, true).unwrap();
    let seen = drive_until(&mut driver, |a| matches!(a, Action::RankPopulation { .. }));
    assert_eq!(seen.len(), initial_population_size(&plan(3, 5, 100, 5)));
}

#[test]
fn parameter_convergence_after_seeding_stops_the_run() {
    let mut driver = Driver::start(plan(1, 2, 100, 5), false, false).unwrap();
    drive_until(&mut driver, |a| *a == Action::CheckParameterConvergence);
    assert_eq!(
        driver.answer(Event::Checked { converged: true }),
        Action::Finish {
            reason: TerminationReason::ParameterConvergence,
            loops: 0,
            evaluations: 2
        }
    );
}

#[test]
fn driver_accepts_an_improving_reflection() {
    let mut driver = at_simplex(10);
    let before = driver.evaluations;
    assert_eq!(driver.answer(Event::Evaluated { improved: true }), Action::ReplaceWorst);
    assert_eq!(driver.evaluations, before + 1);
    assert_eq!(driver.answer(Event::Done), Action::ReturnSimplex);
}

#[test]
fn driver_tries_contraction_after_a_failed_reflection() {
    let mut driver = at_simplex(10);
    assert_eq!(
        driver.answer(Event::Evaluated { improved: false }),
        Action::EvaluateTrial { trial: Trial::Contraction }
    );
    assert_eq!(driver.answer(Event::Evaluated { improved: true }), Action::ReplaceWorst);
}

#[test]
fn driver_mutates_after_a_failed_contraction_and_always_replaces() {
    let mut driver = at_simplex(10);
    let before = driver.evaluations;
    driver.answer(Event::Evaluated { improved: false });
    assert_eq!(
        driver.answer(Event::Evaluated { improved: false }),
        Action::EvaluateTrial { trial: Trial::Mutation }
    );
    assert_eq!(driver.answer(Event::Evaluated { improved: false }), Action::ReplaceWorst);
    assert_eq!(driver.evaluations, before + 3);
}

#[test]
fn driver_keeps_the_worst_point_when_a_failed_reflection_spends_the_budget() {
    // Three points are seeded; the reflection is the fourth and last evaluation.
    let mut driver = at_simplex(4);
    assert_eq!(driver.answer(Event::Evaluated { improved: false }), Action::ReturnSimplex);
    assert_eq!(driver.evaluations, 4);
    assert_eq!(driver.answer(Event::Done), Action::ReturnComplex { complex_index: 0 });
    assert_eq!(
        driver.answer(Event::Done),
        Action::RankPopulation { loop_index: 1, evaluations: 4, complexes: 1 }
    );
    assert_eq!(
        driver.answer(Event::Done),
        Action::Finish {
            reason: TerminationReason::MaxEvaluations,
            loops: 1,
            evaluations: 4
        }
    );
}

#[test]
fn complexes_are_dropped_one_per_loop_down_to_the_minimum() {
    let mut driver = Driver::start(plan(3, 2, 1000, 100), false, false).unwrap();
    let seen = drive_until(&mut driver, |a| {
        matches!(a, Action::RankPopulation { loop_index: 4, .. })
    });
    let compressions: Vec<Action> = seen
        .into_iter()
        .filter(|a| matches!(a, Action::Compress { .. }))
        .collect();
    assert_eq!(
        compressions,
        vec![Action::Compress { from: 3, to: 2 }, Action::Compress { from: 2, to: 1 }]
    );
    assert_eq!(driver.complexes, 1);
    assert_eq!(driver.population, 2);
}

#[test]
fn every_complex_is_evolved_in_each_loop() {
    let mut driver = Driver::start(plan(3, 2, 1000, 100), false, false).unwrap();
    let seen = drive_until(&mut driver, |a| {
        matches!(a, Action::RankPopulation { loop_index: 1, .. })
    });
    let taken: Vec<Action> = seen
        .into_iter()
        .filter(|a| matches!(a, Action::TakeComplex { .. }))
        .collect();
    assert_eq!(
        taken,
        vec![
            Action::TakeComplex { complex_index: 0 },
            Action::TakeComplex { complex_index: 1 },
            Action::TakeComplex { complex_index: 2 }
        ]
    );
}

#[test]
fn objective_convergence_compares_loops_kstop_apart() {
    let mut driver = Driver::start(plan(1, 2, 1000, 2), false, false).unwrap();
    drive_until(&mut driver, |a| matches!(a, Action::CheckObjectiveConvergence { .. }));
    assert_eq!(driver.loops, 3);
    assert_eq!(
        driver.pending,
        Action::CheckObjectiveConvergence { earlier: 0, latest: 2 }
    );
    let evaluations = driver.evaluations;
    assert_eq!(
        driver.answer(Event::Checked { converged: true }),
        Action::Finish {
            reason: TerminationReason::ObjectiveConvergence,
            loops: 3,
            evaluations
        }
    );
}

#[test]
fn a_run_that_never_converges_spends_the_budget_and_stops() {
    let plan = resolve_plan(2, 2, None, None, None, None, 200, 5).unwrap();
    let mut driver = Driver::start(plan, false, false).unwrap();
    let seen = drive_until(&mut driver, |a| matches!(a, Action::Finish { .. }));
    let evaluations = seen
        .iter()
        .filter(|a| {
            matches!(
                a,
                Action::EvaluateRandomPoint | Action::EvaluateTrial { .. }
            )
        })
        .count();
    assert_eq!(evaluations, 200);
    assert!(seen.len() <= 200 * 16 + 11);
    assert!(matches!(
        driver.pending,
        Action::Finish {
            reason: TerminationReason::MaxEvaluations,
            evaluations: 200,
            ..
        }
    ));
}
