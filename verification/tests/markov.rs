use lau_probability_agents::index::clamp_index;
use lau_probability_agents::markov::{
    default_state_labels, is_aperiodic, is_irreducible, states_except, viterbi_backtrace,
};

/// Support of a transition matrix: which entries are positive.
fn support(p: &[&[f64]]) -> Vec<Vec<bool>> {
    p.iter().map(|row| row.iter().map(|&x| x > 0.0).collect()).collect()
}

#[test]
fn test_irreducible() {
    let adj = support(&[&[0.7, 0.3], &[0.4, 0.6]]);
    assert!(is_irreducible(&adj));
}

#[test]
fn test_aperiodic() {
    let adj = support(&[&[0.7, 0.3], &[0.4, 0.6]]);
    assert!(is_aperiodic(&adj));
}

#[test]
fn irreducible_single_state() {
    assert!(is_irreducible(&vec![vec![true]]));
    assert!(is_irreducible(&vec![vec![false]]));
}

#[test]
fn absorbing_state_is_not_irreducible() {
    // State 1 is absorbing: reachable from 0, but 0 is not reachable from it.
    let adj = support(&[&[0.5, 0.5], &[0.0, 1.0]]);
    assert!(!is_irreducible(&adj));
}

#[test]
fn unreachable_state_is_not_irreducible() {
    // State 0 is absorbing: nothing else is reachable from it.
    let adj = support(&[&[1.0, 0.0, 0.0], &[0.5, 0.0, 0.5], &[0.0, 1.0, 0.0]]);
    assert!(!is_irreducible(&adj));
}

#[test]
fn cycle_is_irreducible_without_self_loop() {
    let adj = support(&[&[0.0, 1.0, 0.0], &[0.0, 0.0, 1.0], &[1.0, 0.0, 0.0]]);
    assert!(is_irreducible(&adj));
    // Every return to a state takes a multiple of 3 moves: period 3.
    assert!(!is_aperiodic(&adj));
}

#[test]
fn long_chain_needs_backward_search() {
    // 0 -> 1 -> 2 -> 3 and 3 -> 0: irreducible only through the long way round.
    let mut adj = vec![vec![false; 4]; 4];
    adj[0][1] = true;
    adj[1][2] = true;
    adj[2][3] = true;
    assert!(!is_irreducible(&adj));
    adj[3][0] = true;
    assert!(is_irreducible(&adj));
}

#[test]
fn self_loop_on_last_state() {
    let adj = support(&[&[0.0, 1.0], &[0.5, 0.5]]);
    assert!(is_aperiodic(&adj));
    assert!(is_aperiodic(&Vec::new()));
}

#[test]
fn cycles_of_coprime_lengths_are_aperiodic() {
    // Returns to state 0 in 2 moves (0 -> 1 -> 0) and in 3 (0 -> 1 -> 2 -> 0).
    let adj = support(&[&[0.0, 1.0, 0.0], &[0.5, 0.0, 0.5], &[1.0, 0.0, 0.0]]);
    assert!(is_aperiodic(&adj));
}

#[test]
fn two_cycle_is_periodic() {
    let adj = support(&[&[0.0, 1.0], &[1.0, 0.0]]);
    assert!(!is_aperiodic(&adj));
    // Cycles of lengths 2 and 4 only: period 2.
    let adj = support(&[
        &[0.0, 0.5, 0.5, 0.0],
        &[1.0, 0.0, 0.0, 0.0],
        &[0.0, 0.0, 0.0, 1.0],
        &[0.0, 0.0, 1.0, 0.0],
    ]);
    assert!(!is_aperiodic(&adj));
}

#[test]
fn state_without_return_is_not_aperiodic() {
    // State 0 is left at once and never re-entered.
    let adj = support(&[&[0.0, 1.0], &[0.0, 1.0]]);
    assert!(!is_aperiodic(&adj));
    assert!(!is_aperiodic(&vec![vec![false]]));
    assert!(is_aperiodic(&vec![vec![true]]));
}

#[test]
fn hitting_time_unknowns_skip_target() {
    assert_eq!(states_except(4, 2), vec![0, 1, 3]);
    assert_eq!(states_except(2, 1), vec![0]);
    assert_eq!(states_except(1, 0), Vec::<usize>::new());
}

#[test]
fn viterbi_path_follows_back_pointers() {
    let psi = vec![vec![0, 0], vec![1, 0], vec![0, 0]];
    let path = viterbi_backtrace(&psi, 2, 1);
    assert_eq!(path, vec![1, 0, 1]);
    assert_eq!(viterbi_backtrace(&vec![vec![0, 0, 0]], 3, 2), vec![2]);
}

#[test]
fn observation_symbols_are_clamped() {
    assert_eq!(clamp_index(0, 2), 0);
    assert_eq!(clamp_index(1, 2), 1);
    assert_eq!(clamp_index(7, 2), 1);
}

#[test]
fn state_labels_are_numbered() {
    let labels = default_state_labels(12);
    assert_eq!(labels.len(), 12);
    assert_eq!(labels[0], "s0");
    assert_eq!(labels[2], "s2");
    assert_eq!(labels[11], "s11");
    assert!(default_state_labels(0).is_empty());
}
