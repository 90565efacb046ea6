use rand::SeedableRng;
use test_pyramid::ratio::Ratio;
use test_pyramid::system::{System, SystemError};
use test_pyramid::metrics::{calculate_metrics, generate_scenario, run_simulation};

fn rng_with_seed(seed: u64) -> rand::rngs::StdRng {
    rand::rngs::StdRng::seed_from_u64(seed)
}

#[test]
fn test_add_has_tests_for() {
    let mut system = System::new(10, 10);
    system.add_has_test_for(1, &[1, 2, 3]).unwrap();
    assert_eq!(system.is_tested_by(1).unwrap(), vec![1, 2, 3]);
}

#[test]
fn test_efficiency() {
    let mut system = System::new(3, 3);
    system.add_has_test_for(0, &[0, 1]).unwrap();
    system.add_has_test_for(1, &[1, 2]).unwrap();
    system.add_has_test_for(2, &[0, 2]).unwrap();

    // 6 links out of 3 * 3 possible: efficiency = 1 - 6/9 = 1/3.
    let eff = system.efficiency();
    assert_eq!(eff.num, 3);
    assert_eq!(eff.den, 9);
    assert!(eff.same_value(&Ratio::new(1, 3)));
}

#[test]
fn test_defect_detection_capacity() {
    let mut system = System::new(3, 3);
    system.add_has_test_for(0, &[0, 1]).unwrap();
    system.add_has_test_for(1, &[1, 2]).unwrap();
    system.add_has_test_for(2, &[0, 2]).unwrap();
    let det = system.defect_detection_capacity();
    assert_eq!(det.num, 9);
    assert_eq!(det.den, 21);
    assert!(det.same_value(&Ratio::new(9, 21)));
}

#[test]
fn test_defect_localization_capacity() {
    let mut system = System::new(3, 3);
    system.add_has_test_for(0, &[0, 1]).unwrap();
    system.add_has_test_for(1, &[1, 2]).unwrap();
    system.add_has_test_for(2, &[0, 2]).unwrap();
    // Only the full subset {0,1,2} is undetectable; its penalty is the whole
    // of 3! over the common denominator 7 * 3!.
    let loc = system.defect_localization_capacity();
    assert_eq!(loc.den, 42);
    assert_eq!(loc.num, 36);
    assert!(loc.same_value(&Ratio::new(6, 7)));
}

#[test]
fn test_efficiency_all_unset_is_one() {
    let system = System::new(4, 5);
    let eff = system.efficiency();
    assert_eq!(eff.num, eff.den);
    assert!(eff.same_value(&Ratio::new(1, 1)));
}

#[test]
fn test_efficiency_full_coverage_is_zero() {
    let mut system = System::new(4, 3);
    for t in 0..3 {
        system.add_has_test_for(t, &[0, 1, 2, 3]).unwrap();
    }
    let eff = system.efficiency();
    assert_eq!(eff.num, 0);
    assert_eq!(eff.den, 12);
}

#[test]
fn test_record_coverage_idempotent() {
    let mut system = System::new(10, 4);
    system.add_has_test_for(2, &[5, 1, 7]).unwrap();
    let first = system.is_tested_by(2).unwrap();
    system.add_has_test_for(2, &[5, 1, 7]).unwrap();
    assert_eq!(system.is_tested_by(2).unwrap(), first);
    assert_eq!(first, vec![1, 5, 7]);
}

#[test]
fn test_record_coverage_accumulates_union() {
    let mut system = System::new(10, 4);
    system.add_has_test_for(0, &[4, 2]).unwrap();
    system.add_has_test_for(0, &[2, 9]).unwrap();
    assert_eq!(system.is_tested_by(0).unwrap(), vec![2, 4, 9]);
}

#[test]
fn test_degenerate_single_source() {
    let mut system = System::new(1, 1);
    system.add_has_test_for(0, &[0]).unwrap();
    let eff = system.efficiency();
    assert_eq!(eff.num, 0);
    assert_eq!(eff.den, 1);
    let det = system.defect_detection_capacity();
    assert!(det.same_value(&Ratio::new(1, 1)));
    let loc = system.defect_localization_capacity();
    assert!(loc.same_value(&Ratio::new(1, 1)));
}

#[test]
fn test_invalid_test_index_rejected() {
    let mut system = System::new(3, 2);
    assert_eq!(
        system.add_has_test_for(2, &[0]),
        Err(SystemError::InvalidIndex)
    );
    assert_eq!(system.is_tested_by(5), Err(SystemError::InvalidIndex));
}

#[test]
fn test_invalid_source_index_rejected() {
    let mut system = System::new(3, 2);
    assert_eq!(
        system.add_has_test_for(0, &[0, 3]),
        Err(SystemError::InvalidIndex)
    );
    // The failed call must leave the slot untouched.
    assert_eq!(system.is_tested_by(0).unwrap(), Vec::<u16>::new());
}

#[test]
fn test_configuration_rejection() {
    let mut rng = rng_with_seed(7);
    let r = run_simulation(3, 10, Ratio::new(7, 10), Ratio::new(4, 10), &mut rng);
    assert_eq!(r.unwrap_err(), SystemError::InvalidConfiguration);
}

#[test]
fn test_configuration_rejects_zero_sources() {
    let mut rng = rng_with_seed(7);
    let r = run_simulation(0, 10, Ratio::new(1, 10), Ratio::new(1, 10), &mut rng);
    assert_eq!(r.unwrap_err(), SystemError::InvalidConfiguration);
    let r = run_simulation(3, 0, Ratio::new(1, 10), Ratio::new(1, 10), &mut rng);
    assert_eq!(r.unwrap_err(), SystemError::InvalidConfiguration);
}

#[test]
fn test_configuration_rejects_ceil_overflow() {
    // ceil(3 * 0.5) + ceil(3 * 0.5) = 4 > 3 tests.
    let mut rng = rng_with_seed(7);
    let r = run_simulation(3, 3, Ratio::new(1, 2), Ratio::new(1, 2), &mut rng);
    assert_eq!(r.unwrap_err(), SystemError::InvalidConfiguration);
}

#[test]
fn test_simulation_termination() {
    let mut rng = rng_with_seed(42);
    let (triples, bounds) =
        run_simulation(3, 6, Ratio::new(1, 4), Ratio::new(1, 4), &mut rng).unwrap();
    assert!(!triples.is_empty());
    assert!(triples.len() <= 100);
    for t in &triples {
        assert!(t.efficiency.num <= t.efficiency.den);
        assert!(t.defect_detection.num <= t.defect_detection.den);
        assert!(t.defect_localization.num <= t.defect_localization.den);
    }
    assert!(bounds.lower.efficiency.den > 0);
    assert!(bounds.upper.efficiency.den > 0);
}

#[test]
fn test_generated_scenario_structure() {
    let mut rng = rng_with_seed(11);
    let sys = generate_scenario(4, 6, 1, 2, &mut rng);
    // The first test is a full-system test.
    assert_eq!(sys.is_tested_by(0).unwrap(), vec![0, 1, 2, 3]);
    // The next two cover exactly one source each.
    for t in 1..3 {
        let cov = sys.is_tested_by(t).unwrap();
        assert_eq!(cov.len(), 1);
        assert!(cov[0] < 4);
    }
    // The rest cover a non-empty set of distinct sources.
    for t in 3..6 {
        let cov = sys.is_tested_by(t).unwrap();
        assert!(!cov.is_empty());
        assert!(cov.len() <= 4);
        for w in cov.windows(2) {
            assert!(w[0] < w[1]);
        }
        assert!(cov.iter().all(|&s| s < 4));
    }
}

#[test]
fn test_calculate_metrics_emits_valid_triples() {
    let mut rng = rng_with_seed(3);
    let (triples, _bounds) =
        calculate_metrics(2, 4, Ratio::new(1, 4), Ratio::new(1, 4), &mut rng);
    assert!(!triples.is_empty());
    assert!(triples.len() <= 100);
    for t in &triples {
        // Two sources, four tests: the denominators are fixed by the model.
        assert_eq!(t.efficiency.den, 8);
        assert_eq!(t.defect_detection.den, 12);
        assert_eq!(t.defect_localization.den, 6);
    }
}

#[test]
fn test_subset_count_in_denominators() {
    // Four sources: both exhaustive metrics range over 2^4 - 1 = 15
    // non-empty subsets, visible in their denominators.
    let mut system = System::new(4, 2);
    system.add_has_test_for(0, &[0, 2]).unwrap();
    system.add_has_test_for(1, &[1]).unwrap();
    let det = system.defect_detection_capacity();
    assert_eq!(det.den, 15 * 2);
    let loc = system.defect_localization_capacity();
    assert_eq!(loc.den, 15 * 24);
}

#[test]
fn test_ratio_comparisons() {
    let half = Ratio::new(1, 2);
    let two_quarters = Ratio::new(2, 4);
    let third = Ratio::new(1, 3);
    assert!(half.same_value(&two_quarters));
    assert!(third.le(&half));
    assert!(!half.le(&third));
}
