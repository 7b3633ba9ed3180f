use lau_probability_agents::convergence::ConvergenceType;

#[test]
fn convergence_types_compare_by_variant_and_order() {
    assert_eq!(ConvergenceType::InLp { p: 2 }, ConvergenceType::InLp { p: 2 });
    assert_ne!(ConvergenceType::InLp { p: 1 }, ConvergenceType::InLp { p: 2 });
    assert_ne!(ConvergenceType::AlmostSure, ConvergenceType::InProbability);
    let c = ConvergenceType::InDistribution;
    let d = c;
    assert_eq!(c, d);
}
