use dominos::chain::find_longest_chain;

#[test]
fn search_prefers_the_longest_train() {
    let pairs = vec![(2, 3), (2, 4), (4, 5)];
    assert_eq!(find_longest_chain(2, &pairs, Vec::new()), vec![(2, 4), (4, 5)]);
}

#[test]
fn search_turns_tiles_round() {
    let pairs = vec![(3, 1), (4, 3)];
    assert_eq!(find_longest_chain(1, &pairs, Vec::new()), vec![(1, 3), (3, 4)]);
}

#[test]
fn first_train_found_wins_a_tie() {
    let pairs = vec![(1, 2), (1, 3)];
    assert_eq!(find_longest_chain(1, &pairs, Vec::new()), vec![(1, 2)]);
}

#[test]
fn search_keeps_the_given_prefix() {
    let pairs = vec![(5, 6)];
    assert_eq!(find_longest_chain(5, &pairs, vec![(9, 5)]), vec![(9, 5), (5, 6)]);
    assert_eq!(find_longest_chain(7, &pairs, vec![(9, 5)]), vec![(9, 5)]);
}

#[test]
fn each_tile_is_laid_once() {
    let pairs = vec![(1, 1)];
    assert_eq!(find_longest_chain(1, &pairs, Vec::new()), vec![(1, 1)]);
    assert_eq!(find_longest_chain(1, &[], Vec::new()), vec![]);
}

#[test]
fn doubles_and_cycles() {
    let pairs = vec![(6, 6), (6, 1), (1, 2), (2, 6)];
    assert_eq!(find_longest_chain(6, &pairs, Vec::new()), vec![(6, 6), (6, 1), (1, 2), (2, 6)]);
}
