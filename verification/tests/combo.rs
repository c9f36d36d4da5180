use dominos::combo::{
    best_combo_from, calculate_best_combo, format_chain, try_calculate_best_combo,
    FORMAT_ERROR_MESSAGE,
};

#[test]
fn example_line_gives_single_tile_train() {
    assert_eq!(calculate_best_combo("1 3,1 12,0"), Some("[[1, 3]]".to_string()));
}

#[test]
fn long_hand_gives_longest_train() {
    assert_eq!(
        calculate_best_combo("1 3,1 4,1 5,1 5,4 3,2 12,1 3,12"),
        Some("[[1, 3], [3, 12], [12, 1], [1, 4], [4, 5], [5, 1]]".to_string())
    );
}

#[test]
fn trailing_space_is_accepted() {
    assert_eq!(calculate_best_combo("6 6,6 6,1 1,2 2,6 "), Some("[[6, 6], [6, 1], [1, 2], [2, 6]]".to_string()));
}

#[test]
fn no_matching_tile_gives_empty_train() {
    assert_eq!(calculate_best_combo("0 1,2"), Some("[]".to_string()));
}

#[test]
fn malformed_lines_get_the_format_message() {
    let msg = Some(FORMAT_ERROR_MESSAGE.to_string());
    assert_eq!(calculate_best_combo(""), msg);
    assert_eq!(calculate_best_combo("1"), msg);
    assert_eq!(calculate_best_combo("abc"), msg);
    assert_eq!(calculate_best_combo("1 3,1,2"), msg);
    assert_eq!(calculate_best_combo("1  3,1"), msg);
    assert_eq!(calculate_best_combo("-1 3,1"), msg);
    assert_eq!(FORMAT_ERROR_MESSAGE, "Input format is incorrect");
}

#[test]
fn numbers_out_of_range_give_no_answer() {
    assert_eq!(calculate_best_combo("99999999999 1,2"), None);
    assert_eq!(calculate_best_combo("1 1,99999999999"), None);
}

#[test]
fn non_ascii_digits_give_no_answer() {
    // U+0661 is a decimal digit for the regex but not for `i32` parsing.
    assert_eq!(calculate_best_combo("\u{661} 1,2"), None);
}

#[test]
fn pattern_compiles() {
    assert_eq!(try_calculate_best_combo("1 3,1 12,0"), Some(Some("[[1, 3]]".to_string())));
}

#[test]
fn unchecked_line_is_answered_by_its_words() {
    assert_eq!(
        best_combo_from("-1 -1,7 7,-2147483648", true),
        Some("[[-1, 7], [7, -2147483648]]".to_string())
    );
    assert_eq!(best_combo_from("2 2,3\t2,4\u{a0}4,5 junk", true), Some("[[2, 4], [4, 5]]".to_string()));
    assert_eq!(best_combo_from("   ", true), None);
    assert_eq!(best_combo_from("+2 2,3", true), Some("[[2, 3]]".to_string()));
    assert_eq!(best_combo_from("x 2,3", true), None);
    assert_eq!(best_combo_from("1 1,", true), None);
    assert_eq!(best_combo_from("1 3,1", false), Some("Input format is incorrect".to_string()));
}

#[test]
fn trains_are_written_as_nested_lists() {
    assert_eq!(format_chain(&vec![]), "[]");
    assert_eq!(format_chain(&vec![(1, 2)]), "[[1, 2]]");
    assert_eq!(format_chain(&vec![(0, -5), (-5, 12)]), "[[0, -5], [-5, 12]]");
}
