use tenzi::dice::DieSource;
use tenzi::runner::{sim, Totals};
use tenzi::simulation::{
    Counted, DivideSimulation, MergeSimulation, NaiveSimulation, SimulationType, Strategy,
};

#[test]
fn test_naive_simulation() {
    let num_sides = 6;
    let num_dice = 10;
    let mut dice = DieSource::seeded(42);
    let mut sim = NaiveSimulation::new(num_sides, num_dice);

    let expected_mode = 5;
    let expected_steps = 20;
    let expected_rols = 58;

    while !sim.done() {
        sim.step(&mut dice);
    }

    let mode = sim.mode().unwrap();

    assert_eq!(mode, expected_mode);
    assert_eq!(sim.num_steps(), expected_steps);
    assert_eq!(sim.num_rolls(), expected_rols);
}

#[test]
fn test_naive_simulation_step() {
    let num_sides = 6;
    let num_dice = 10;
    let mut dice = DieSource::seeded(42);
    let mut sim = NaiveSimulation::new(num_sides, num_dice);

    assert_eq!(sim.buckets(), &[0, 0, 0, 0, 0, 0]);
    sim.step(&mut dice);
    assert_eq!(sim.buckets(), &[0, 0, 0, 0, 3, 0]);
    sim.step(&mut dice);
    assert_eq!(sim.buckets(), &[0, 0, 0, 0, 5, 0]);
    sim.step(&mut dice);
    assert_eq!(sim.buckets(), &[0, 0, 0, 0, 6, 0]);
}

#[test]
fn test_divide_simulation() {
    let num_sides = 6;
    let num_dice = 20;
    let mut dice = DieSource::seeded(42);
    let mut sim = DivideSimulation::new(num_sides, num_dice);

    let expected_steps = 26;
    let expected_rols = 129;

    while !sim.done() {
        sim.step(&mut dice);
    }

    assert_eq!(sim.num_steps(), expected_steps);
    assert_eq!(sim.num_rolls(), expected_rols);
}

#[test]
fn test_divide_simulation_step() {
    let num_sides = 6;
    let num_dice = 20;
    let mut dice = DieSource::seeded(42);
    let mut sim = DivideSimulation::new(num_sides, num_dice);

    assert_eq!(sim.buckets(), &[0, 0, 0, 0, 0, 0]);
    sim.step(&mut dice);
    assert_eq!(sim.buckets(), &[0, 0, 0, 4, 6, 0]);
    sim.step(&mut dice);
    assert_eq!(sim.buckets(), &[0, 0, 0, 6, 7, 0]);
    sim.step(&mut dice);
    assert_eq!(sim.buckets(), &[0, 0, 0, 7, 7, 0]);
    sim.step(&mut dice);
    assert_eq!(sim.buckets(), &[0, 0, 0, 9, 7, 0]);
    sim.step(&mut dice);
    assert_eq!(sim.buckets(), &[0, 0, 0, 11, 0, 0]);
}

#[test]
fn test_merge_simulation() {
    let num_sides = 6;
    let num_dice = 20;
    let mut dice = DieSource::seeded(42);
    let mut sim = MergeSimulation::new(num_sides, num_dice);

    let expected_steps = 46;
    let expected_rols = 111;

    while !sim.done() {
        sim.step(&mut dice);
    }

    assert_eq!(sim.num_steps(), expected_steps);
    assert_eq!(sim.num_rolls(), expected_rols);
}

#[test]
fn test_merge_simulation_step() {
    let num_sides = 6;
    let num_dice = 20;
    let mut dice = DieSource::seeded(42);
    let mut sim = MergeSimulation::new(num_sides, num_dice);

    assert_eq!(sim.buckets(), &[0, 0, 0, 0, 0, 0]);
    sim.step(&mut dice);
    assert_eq!(sim.buckets(), &[3, 3, 3, 4, 6, 0]);
    sim.step(&mut dice);
    assert_eq!(sim.buckets(), &[0, 4, 0, 4, 6, 0]);
    sim.step(&mut dice);
    assert_eq!(sim.buckets(), &[2, 5, 0, 5, 7, 0]);
    sim.step(&mut dice);
    assert_eq!(sim.buckets(), &[2, 5, 0, 5, 7, 0]);
    sim.step(&mut dice);
    assert_eq!(sim.buckets(), &[2, 5, 0, 5, 7, 0]);
    sim.step(&mut dice);
    assert_eq!(sim.buckets(), &[0, 5, 0, 6, 7, 0]);
    sim.step(&mut dice);
    assert_eq!(sim.buckets(), &[0, 6, 0, 6, 7, 0]);
    sim.step(&mut dice);
    assert_eq!(sim.buckets(), &[0, 7, 0, 0, 7, 0]);
    sim.step(&mut dice);
    assert_eq!(sim.buckets(), &[0, 10, 0, 0, 7, 0]);
    sim.step(&mut dice);
    assert_eq!(sim.buckets(), &[0, 11, 0, 0, 7, 0]);
}

#[test]
fn single_sided_dice_end_in_one_round() {
    for num_dice in [1, 2, 10, 57] {
        let kinds = [
            SimulationType::Naive(NaiveSimulation::new(1, num_dice)),
            SimulationType::Divide(DivideSimulation::new(1, num_dice)),
            SimulationType::Merge(MergeSimulation::new(1, num_dice)),
        ];
        for kind in kinds {
            let mut dice = DieSource::new();
            assert_eq!(sim(kind, &mut dice), (num_dice, 1));
        }
    }
}

#[test]
fn every_strategy_ends_with_all_dice_on_one_face() {
    let mut dice = DieSource::seeded(3);
    for num_sides in [2, 6, 20] {
        for num_dice in [1, 2, 5, 30] {
            let mut kinds = [
                SimulationType::Naive(NaiveSimulation::new(num_sides, num_dice)),
                SimulationType::Divide(DivideSimulation::new(num_sides, num_dice)),
                SimulationType::Merge(MergeSimulation::new(num_sides, num_dice)),
            ];
            for kind in kinds.iter_mut() {
                while !kind.done() {
                    kind.step(&mut dice);
                    let kept: usize = kind.buckets().iter().sum();
                    assert_eq!(kept + kind.num_to_roll(), num_dice);
                }
                assert!(kind.buckets().contains(&num_dice));
                assert_eq!(kind.num_to_roll(), 0);
                assert!(kind.num_rolls() >= num_dice);
                assert!(kind.num_rolls() <= kind.num_steps() * num_dice);
            }
        }
    }
}

#[test]
fn naive_kept_dice_never_decrease() {
    let mut dice = DieSource::seeded(42);
    let mut sim = NaiveSimulation::new(6, 10);
    let mut last = 0;
    while !sim.done() {
        sim.step(&mut dice);
        let kept: usize = sim.buckets().iter().sum();
        assert!(kept >= last);
        last = kept;
    }
    assert_eq!(last, 10);
}

#[test]
fn naive_run_through_the_runner() {
    let mut dice = DieSource::seeded(42);
    let kind = SimulationType::Naive(NaiveSimulation::new(6, 10));
    assert_eq!(sim(kind, &mut dice), (58, 20));
}

#[test]
fn divide_with_single_die_ends_in_one_round() {
    let mut dice = DieSource::seeded(9);
    let mut sim = DivideSimulation::new(6, 1);
    sim.step(&mut dice);
    assert!(sim.done());
    assert_eq!(sim.num_rolls(), 1);
}

#[test]
fn totals_of_a_single_trial() {
    let mut totals = Totals::new();
    assert!(totals.add_trial(58, 20));
    assert_eq!(totals.count, 1);
    assert_eq!(totals.rolls, 58);
    assert_eq!(totals.squared_rolls, 58 * 58);
    assert_eq!(totals.steps, 20);
    assert_eq!(totals.squared_steps, 400);
}

#[test]
fn totals_add_up_sums_and_squares() {
    let mut totals = Totals::new();
    assert!(totals.add_trial(3, 1));
    assert!(totals.add_trial(5, 2));
    assert_eq!(totals.count, 2);
    assert_eq!(totals.rolls, 8);
    assert_eq!(totals.squared_rolls, 34);
    assert_eq!(totals.steps, 3);
    assert_eq!(totals.squared_steps, 5);
}

#[test]
fn totals_refuse_an_overflowing_trial() {
    let mut totals = Totals::new();
    totals.count = u64::MAX;
    assert!(!totals.add_trial(1, 1));
    assert_eq!(totals.rolls, 0);
    let mut totals = Totals::new();
    totals.squared_rolls = u128::MAX - 3;
    assert!(!totals.add_trial(2, 1));
    assert_eq!(totals.count, 0);
    assert_eq!(totals.squared_rolls, u128::MAX - 3);
}
