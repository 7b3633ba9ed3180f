# lau-probability-agents

Measure-theoretic probability for agents: probability spaces, random
variables, expectations, Bayesian updating, Markov chains, martingales,
large deviations and stochastic processes.

## Layout

- `src/` — the verified library, written in Verus. It holds the parts of the
  toolkit that are exact, discrete computations, each with a contract proved
  by Verus:
  - `markov` — the transition graph of a finite chain (the support of its
    transition matrix): irreducibility as "all states communicate", proved
    from two graph searches; aperiodicity as every state having period one,
    decided from the walk lengths a search assigns inside each state's
    strongly connected class; the unknowns of the hitting-time system; Viterbi back-pointer recovery;
    default state labels.
  - `martingale` — integer random walks `X_k = X_{k-1} + Z_k` with overflow
    detection, their laws (increments are the steps, quadratic variation of a
    unit-step walk is its length), and first-hitting times, proved to be
    stopping times.
  - `index` — clamping a stopping time or observation symbol into a recorded
    range.
  - `convergence` — the modes of convergence.
- `app/` — ordinary Rust around the library: everything computed in `f64`
  (distributions, moments, Bayes' rule, Doob inequalities, Gaussian processes,
  the agent API), the `nalgebra` matrix code and the `serde` derives. It calls
  the verified library for the discrete steps above.
- `tests/` — tests of the verified library.
