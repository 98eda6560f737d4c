use tenzi::mode::{anti_modes, mode_from_counts, top_two_modes_from_counts};

#[test]
fn test_mode_from_counts() {
    let counts = vec![1, 2, 3, 4, 2, 3, 1, 1];
    let expected = 4;

    let result = mode_from_counts(&counts);

    assert_eq!(result, expected);
}

#[test]
fn test_top_two_modes_from_counts() {
    let counts = vec![1, 2, 3, 4, 2, 3, 1, 1];
    let expected = (4, 6);

    let result = top_two_modes_from_counts(&counts);

    assert_eq!(result, expected);
}

#[test]
fn test_anti_modes() {
    let counts = vec![3, 1, 1, 0, 2, 2, 1];
    let expected = vec![2, 3, 7];

    let result = anti_modes(&counts);

    assert_eq!(result, expected);
}

#[test]
fn test_anti_modes_empty() {
    let counts = vec![0, 0, 10, 0, 0, 0, 0];
    let expected: Vec<usize> = vec![];

    let result = anti_modes(&counts);

    assert_eq!(result, expected);
}

#[test]
fn test_anti_modes_tied() {
    let counts = vec![0, 0, 10, 10, 0, 0, 0];
    let expected = vec![3];

    let result = anti_modes(&counts);

    assert_eq!(result, expected);
}

#[test]
fn mode_prefers_last_of_tied_maxima() {
    assert_eq!(mode_from_counts(&[5, 1, 5, 2]), 3);
    assert_eq!(mode_from_counts(&[7]), 1);
    assert_eq!(mode_from_counts(&[0, 0, 0]), 3);
}

#[test]
fn top_two_ties_prefer_higher_faces() {
    // Leader tied with runner-up: the higher face leads.
    assert_eq!(top_two_modes_from_counts(&[0, 0, 0, 7, 7, 0]), (5, 4));
    // A zero runner-up is still the last remaining face.
    assert_eq!(top_two_modes_from_counts(&[5, 0]), (1, 2));
    assert_eq!(top_two_modes_from_counts(&[0, 0]), (2, 1));
    assert_eq!(top_two_modes_from_counts(&[3, 9, 3, 1]), (2, 3));
}

#[test]
fn anti_modes_of_empty_and_zero_histograms() {
    assert_eq!(anti_modes(&[]), Vec::<usize>::new());
    assert_eq!(anti_modes(&[0, 0, 0]), Vec::<usize>::new());
}

#[test]
fn anti_modes_three_way_tie_returns_lowest_face() {
    assert_eq!(anti_modes(&[0, 4, 0, 4, 4]), vec![2]);
}

#[test]
fn anti_modes_all_minimal_faces() {
    assert_eq!(anti_modes(&[2, 5, 2, 0, 9, 2]), vec![1, 3, 6]);
    assert_eq!(anti_modes(&[1, 6]), vec![1]);
}
