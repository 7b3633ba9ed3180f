//! Discrete, exactly checkable core of a measure-theoretic probability toolkit:
//! the transition graph of a finite Markov chain, Viterbi path recovery,
//! integer random walks, first-hitting stopping times, and the kinds of
//! probabilistic convergence.

pub mod index;
pub mod markov;
pub mod martingale;
pub mod convergence;
