use my_library::walls::wall_rows;

#[test]
fn wall_around_a_centred_gap() {
    let mut expected: Vec<i32> = (-12..=-5).collect();
    expected.extend(5..=12);
    assert_eq!(wall_rows(0), expected);
}

#[test]
fn wall_with_a_low_gap() {
    let mut expected: Vec<i32> = vec![-12, -11, -10];
    expected.extend(0..=12);
    assert_eq!(wall_rows(-5), expected);
}

#[test]
fn wall_with_a_gap_far_away_is_full() {
    assert_eq!(wall_rows(100), (-12..=12).collect::<Vec<i32>>());
}
