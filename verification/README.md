# sceua

The Shuffled Complex Evolution method (SCE-UA) of Duan, Sorooshian and Gupta
for bounded global optimisation, with its integer core verified by Verus.

- `src/` is the verified library:
  - `rng.rs`: the portable random number generator of Duan's code (three
    linear congruential generators and a 97-entry shuffle table), with its
    state as a mathematical model.
  - `population.rs`: the linear-probability choice of sub-complex points,
    exact to the rational value of each draw, and the dealing of the sorted
    population into complexes, with the laws of that dealing.
  - `config.rs` and `problem.rs`: defaults and validation of the settings,
    and the order in which a problem's errors are reported.
  - `driver.rs`: the control flow of the optimiser as a state machine, with
    proofs that every run stops and never exceeds its evaluation budget.
- `app/` holds the floating-point side: objective evaluations, simplex
  geometry, population statistics, the `minimize` and `minimize_parallel`
  entry points that run the state machine, and `TarLine`.
- `tests/` exercises the library on concrete values.
