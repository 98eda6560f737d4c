use tenzi::dice::{face_of, roll, DieSource};

#[test]
fn test_roll_6() {
    let num_sides = 6;
    let result = roll(num_sides);

    assert!(result >= 1 && result <= num_sides);
}

#[test]
fn test_roll_20() {
    let num_sides = 20;
    let result = roll(num_sides);

    assert!(result >= 1 && result <= num_sides);
}

#[test]
fn test_seed() {
    let num_sides = 1000;
    let mut dice = DieSource::seeded(42);

    assert_eq!(dice.roll(num_sides), 523);
    assert_eq!(dice.roll(num_sides), 190);
}

#[test]
fn face_of_maps_words_onto_faces() {
    assert_eq!(face_of(0, 6), 1);
    assert_eq!(face_of(5, 6), 6);
    assert_eq!(face_of(6, 6), 1);
    assert_eq!(face_of(1001, 1000), 2);
    assert_eq!(face_of(usize::MAX, 1), 1);
}

#[test]
fn seeded_sources_repeat_their_faces() {
    let mut a = DieSource::seeded(7);
    let mut b = DieSource::seeded(7);
    for _ in 0..100 {
        assert_eq!(a.roll(20), b.roll(20));
    }
}

#[test]
fn unseeded_source_stays_in_range() {
    let mut dice = DieSource::new();
    for _ in 0..1000 {
        let face = dice.roll(3);
        assert!((1..=3).contains(&face));
    }
}
