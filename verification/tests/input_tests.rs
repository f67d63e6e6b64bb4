use qtictac_ai::input::{digit_of, pair_from_groups, two_num_from_input, MOVE_PATTERN};

#[test]
fn two_digits_with_separators() {
    assert_eq!(two_num_from_input("1, 5"), Some((1, 5)));
    assert_eq!(two_num_from_input("3-9\n"), Some((3, 9)));
    assert_eq!(two_num_from_input("4:4"), Some((4, 4)));
    assert_eq!(two_num_from_input("5|6"), Some((5, 6)));
    assert_eq!(two_num_from_input("1_2"), Some((1, 2)));
    assert_eq!(two_num_from_input("7 . / 8"), Some((7, 8)));
    assert_eq!(two_num_from_input("move 2 ,, 3 please"), Some((2, 3)));
}

#[test]
fn digits_side_by_side() {
    assert_eq!(two_num_from_input("12"), Some((1, 2)));
    assert_eq!(two_num_from_input("19"), Some((1, 9)));
}

#[test]
fn digits_count_as_separators() {
    // the run of separators takes all it can: the last digit closes the move
    assert_eq!(two_num_from_input("1 2 3"), Some((1, 3)));
    assert_eq!(two_num_from_input("123"), Some((1, 3)));
    assert_eq!(two_num_from_input("8 08"), Some((8, 8)));
    assert_eq!(two_num_from_input("1 2 0"), Some((1, 2)));
}

#[test]
fn zero_does_not_open_a_move() {
    assert_eq!(two_num_from_input("0 5 6"), Some((5, 6)));
    assert_eq!(two_num_from_input("0 5"), None);
    assert_eq!(two_num_from_input("50"), None);
}

#[test]
fn lines_without_a_move() {
    assert_eq!(two_num_from_input(""), None);
    assert_eq!(two_num_from_input("\n"), None);
    assert_eq!(two_num_from_input("abc"), None);
    assert_eq!(two_num_from_input("7"), None);
    assert_eq!(two_num_from_input("1x5"), None);
    assert_eq!(two_num_from_input("1;2"), None);
    assert_eq!(two_num_from_input("1 and 2"), None);
}

#[test]
fn the_first_move_of_the_line_counts() {
    assert_eq!(two_num_from_input("1x2,3"), Some((2, 3)));
    assert_eq!(two_num_from_input("4 5 then 6 7"), Some((4, 5)));
}

#[test]
fn groups_of_one_digit_give_a_pair() {
    let groups = Some((String::from("1"), String::from("3")));
    assert_eq!(pair_from_groups(groups), Some((1, 3)));
    let groups = Some((String::from("9"), String::from("9")));
    assert_eq!(pair_from_groups(groups), Some((9, 9)));
    assert_eq!(pair_from_groups(None), None);
}

#[test]
fn other_groups_give_none() {
    let groups = Some((String::from("12"), String::from("3")));
    assert_eq!(pair_from_groups(groups), None);
    let groups = Some((String::from("1"), String::from("0")));
    assert_eq!(pair_from_groups(groups), None);
    let groups = Some((String::from(""), String::from("4")));
    assert_eq!(pair_from_groups(groups), None);
    let groups = Some((String::from("4"), String::from("x")));
    assert_eq!(pair_from_groups(groups), None);
}

#[test]
fn one_digit_from_one_to_nine() {
    for (n, text) in ["1", "2", "3", "4", "5", "6", "7", "8", "9"].iter().enumerate() {
        assert_eq!(digit_of(text), Some(n as u8 + 1));
    }
    assert_eq!(digit_of("0"), None);
    assert_eq!(digit_of(""), None);
    assert_eq!(digit_of("a"), None);
    assert_eq!(digit_of("55"), None);
    assert_eq!(digit_of(" 5"), None);
    assert_eq!(digit_of("\u{663}"), None);
}

#[test]
fn the_pattern_is_a_regular_expression() {
    let re = regex::Regex::new(MOVE_PATTERN).unwrap();
    let found = re.captures("x 3, 4").unwrap();
    assert_eq!(&found[1], "3");
    assert_eq!(&found[2], "4");
}
