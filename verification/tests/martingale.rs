use lau_probability_agents::index::clamp_index;
use lau_probability_agents::martingale::{first_hit, random_walk_positions};

#[test]
fn test_symmetric_random_walk() {
    let values = random_walk_positions(&vec![1, -1, 1, 1, -1]).unwrap();
    assert_eq!(values, vec![0, 1, 0, 1, 2, 1]);
    assert_eq!(values.len(), 6);
}

#[test]
fn test_first_passage() {
    let values = random_walk_positions(&vec![1, 1, 1, -1, 1]).unwrap();
    let hits: Vec<bool> = values.iter().map(|&v| v >= 3).collect();
    assert_eq!(first_hit(&hits), 3); // X_3 = 3
}

#[test]
fn test_first_exit() {
    let values = random_walk_positions(&vec![1, 1, 1, -1]).unwrap();
    let hits: Vec<bool> = values.iter().map(|&v| v <= -2 || v >= 2).collect();
    assert_eq!(first_hit(&hits), 2); // X_2 = 2 which is >= 2
}

#[test]
fn test_stopping_evaluate() {
    let values = random_walk_positions(&vec![1, -1, 1, -1, 1]).unwrap();
    assert_eq!(values[clamp_index(3, values.len())], 1);
}

#[test]
fn test_optional_stop() {
    let values = vec![0.0, 1.0, 2.0, 3.0];
    assert_eq!(values[clamp_index(2, values.len())], 2.0);
    assert_eq!(values[clamp_index(100, values.len())], 3.0);
}

#[test]
fn first_hit_never_reached_is_length() {
    assert_eq!(first_hit(&vec![false, false, false]), 3);
    assert_eq!(first_hit(&Vec::new()), 0);
    assert_eq!(first_hit(&vec![true, true]), 0);
}

#[test]
fn walk_increments_are_steps() {
    let steps = vec![1, -1, -1, 1, 1, 1];
    let values = random_walk_positions(&steps).unwrap();
    for k in 0..steps.len() {
        assert_eq!(values[k + 1] - values[k], steps[k]);
    }
}

#[test]
fn unit_walk_quadratic_variation_is_step_count() {
    let steps = vec![1, -1, 1];
    let values = random_walk_positions(&steps).unwrap();
    let qv: i32 = (0..steps.len()).map(|k| (values[k + 1] - values[k]).pow(2)).sum();
    assert_eq!(qv, 3);
}

#[test]
fn walk_overflow_is_refused() {
    assert_eq!(random_walk_positions(&vec![i32::MAX, 1]), None);
    assert_eq!(random_walk_positions(&vec![i32::MIN, -1]), None);
    assert_eq!(random_walk_positions(&vec![i32::MAX, -1]), Some(vec![0, i32::MAX, i32::MAX - 1]));
    assert_eq!(random_walk_positions(&Vec::new()), Some(vec![0]));
}

#[test]
fn first_hit_depends_only_on_the_past() {
    // Two histories that agree up to time 2 stop there together.
    let h1 = vec![false, false, true, false];
    let h2 = vec![false, false, true, true];
    assert_eq!(first_hit(&h1), first_hit(&h2));
    // Agreeing up to time 1, neither has stopped by then.
    let h3 = vec![false, false, false, true];
    assert!(first_hit(&h1) > 1 && first_hit(&h3) > 1);
}

#[test]
fn long_unit_walk_fits() {
    let steps: Vec<i32> = (0..1000).map(|k| if k % 3 == 0 { -1 } else { 1 }).collect();
    let values = random_walk_positions(&steps).unwrap();
    assert_eq!(values.len(), 1001);
    assert!(values.iter().all(|v| v.abs() <= 1000));
}
