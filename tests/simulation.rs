use birthday_paradox::{
    estimate_from_draws, estimate_probability, has_duplicate, run_simulations, run_trials,
    sample_set, Birthday, BirthdayStorage, FastRng, SimulationError, SimulationResult,
};

fn percent(result: &SimulationResult) -> f64 {
    100.0 * result.collisions as f64 / result.trials as f64
}

#[test]
fn sample_set_has_requested_size() {
    let mut rng = FastRng::new(2024);
    for count in 1..=100u64 {
        let set = sample_set(count, &mut rng).unwrap();
        let days = set.as_slice();
        assert_eq!(days.len() as u64, count);
        assert!(days.iter().all(|b| b.day_of_year() < 365));
    }
}

#[test]
fn sample_set_draws_from_generator() {
    let mut rng = FastRng::new(42);
    let set = sample_set(5, &mut rng).unwrap();
    let days: Vec<u16> = set.as_slice().iter().map(|b| b.day_of_year()).collect();
    assert_eq!(days, vec![322, 165, 317, 183, 90]);
}

#[test]
fn sample_set_rejects_out_of_range_counts() {
    let mut rng = FastRng::new(1);
    assert!(matches!(sample_set(0, &mut rng), Err(SimulationError::OutOfRangeCount)));
    assert!(matches!(sample_set(101, &mut rng), Err(SimulationError::OutOfRangeCount)));
    assert!(matches!(sample_set(366, &mut rng), Err(SimulationError::OutOfRangeCount)));
    // A refused request leaves the generator untouched.
    assert_eq!(rng.next(), 5180492295206395165);
}

#[test]
fn storage_sample_matches_sample_set() {
    let mut a = FastRng::new(42);
    let mut b = FastRng::new(42);
    let s = BirthdayStorage::sample(5, &mut a);
    let t = sample_set(5, &mut b).unwrap();
    assert_eq!(s.as_slice(), t.as_slice());
    assert_eq!(a.next(), b.next());
}

#[test]
fn storage_new_has_requested_size() {
    let s = BirthdayStorage::new(100);
    assert_eq!(s.as_slice().len(), 100);
    assert!(s.as_slice().iter().all(|b| b.day_of_year() < 365));
}

#[test]
fn one_birthday_never_collides() {
    let mut rng = FastRng::new(3);
    let result = estimate_probability(1, 10_000, &mut rng).unwrap();
    assert_eq!(result.trials, 10_000);
    assert_eq!(result.collisions, 0);
    assert_eq!(percent(&result), 0.0);
    assert_eq!(run_simulations(1, 2000), 0);
}

#[test]
fn estimate_rejects_invalid_input() {
    let mut rng = FastRng::new(3);
    assert_eq!(estimate_probability(0, 10, &mut rng), Err(SimulationError::OutOfRangeCount));
    assert_eq!(estimate_probability(366, 10, &mut rng), Err(SimulationError::OutOfRangeCount));
    assert_eq!(estimate_probability(23, 0, &mut rng), Err(SimulationError::InvalidTrialCount));
    assert_eq!(estimate_probability(500, 0, &mut rng), Err(SimulationError::OutOfRangeCount));
}

#[test]
fn twenty_three_people_near_half() {
    let mut rng = FastRng::new(12345);
    let result = estimate_probability(23, 50_000, &mut rng).unwrap();
    let p = percent(&result);
    assert!((45.0..=55.0).contains(&p), "estimate was {}", p);
    assert_eq!(result.collisions, 25416);
    assert_eq!(result.percent_hundredths(), 5083);
}

#[test]
fn twenty_three_people_with_rand() {
    let matches = run_simulations(23, 2000);
    let p = 100.0 * matches as f64 / 2000.0;
    assert!((42.0..=59.0).contains(&p), "estimate was {}", p);
}

#[test]
fn run_trials_counts_collisions() {
    let mut a = FastRng::new(12345);
    let mut b = FastRng::new(12345);
    let n = run_trials(23, 1000, &mut a);
    let mut expected = 0u64;
    for _ in 0..1000 {
        let s = BirthdayStorage::sample(23, &mut b);
        if has_duplicate(s.as_slice()) {
            expected += 1;
        }
    }
    assert_eq!(n, expected);
    assert_eq!(a.next(), b.next());
}

#[test]
fn injected_single_trial_reports_full_probability() {
    let draws: Vec<Birthday> = [10u16, 200, 10].iter().map(|&d| Birthday::new(d)).collect();
    let result = estimate_from_draws(3, &draws).unwrap();
    assert_eq!(result.trials, 1);
    assert_eq!(result.collisions, 1);
    assert_eq!(percent(&result), 100.0);
    assert_eq!(result.percent_hundredths(), 10000);
}

#[test]
fn injected_draws_split_into_trials() {
    let days = [1u16, 2, 3, 4, 4, 5, 6, 7, 8, 9, 9, 9];
    let draws: Vec<Birthday> = days.iter().map(|&d| Birthday::new(d)).collect();
    let result = estimate_from_draws(3, &draws).unwrap();
    assert_eq!(result, SimulationResult { trials: 4, collisions: 2 });
    assert_eq!(result.percent_hundredths(), 5000);
    let single = estimate_from_draws(1, &draws).unwrap();
    assert_eq!(single, SimulationResult { trials: 12, collisions: 0 });
}

#[test]
fn injected_draws_rejects_bad_shapes() {
    let draws: Vec<Birthday> = [1u16, 2, 3, 4].iter().map(|&d| Birthday::new(d)).collect();
    assert_eq!(estimate_from_draws(3, &draws), Err(SimulationError::InvalidTrialCount));
    assert_eq!(estimate_from_draws(3, &[]), Err(SimulationError::InvalidTrialCount));
    assert_eq!(estimate_from_draws(0, &draws), Err(SimulationError::OutOfRangeCount));
    assert_eq!(estimate_from_draws(101, &draws), Err(SimulationError::OutOfRangeCount));
}

#[test]
fn percent_rounds_down() {
    let r = SimulationResult { trials: 3, collisions: 1 };
    assert_eq!(r.percent_hundredths(), 3333);
    let r = SimulationResult { trials: 100_000, collisions: 50_729 };
    assert_eq!(r.percent_hundredths(), 5072);
}

#[test]
fn estimate_leaves_generator_after_all_draws() {
    let mut a = FastRng::new(77);
    let mut b = FastRng::new(77);
    estimate_probability(23, 10, &mut a).unwrap();
    for _ in 0..230 {
        b.next();
    }
    assert_eq!(a.next(), b.next());
}

#[test]
fn full_sets_count_at_most_trials() {
    // With 100 people a shared birthday is all but certain in every trial.
    let matches = run_simulations(100, 50);
    assert!((49..=50).contains(&matches));
    assert!(run_simulations(2, 1) <= 1);
}
