use std::cmp::Ordering;

use ferrum::position::{find_exact, find_ordered};

#[test]
fn exact_search_takes_the_first_match() {
    assert_eq!(find_exact(&[(1, false), (2, true), (3, true)]), Some(2));
    assert_eq!(find_exact(&[(1, false), (2, false)]), None);
    assert_eq!(find_exact(&[]), None);
}

#[test]
fn exact_search_keeps_stated_positions() {
    // Positions are those of the stated range, not indexes into the list.
    assert_eq!(find_exact(&[(3, false), (4, true)]), Some(4));
}

#[test]
fn ascending_search_finds_the_largest_at_or_below() {
    // Target 25 in 10, 20, 30, 40: the answer is 20, at position 2.
    let line = [
        (1, Some(Ordering::Less)),
        (2, Some(Ordering::Less)),
        (3, Some(Ordering::Greater)),
        (4, Some(Ordering::Greater)),
    ];
    assert_eq!(find_ordered(&line, Ordering::Greater), Some(2));
}

#[test]
fn ascending_search_stops_on_an_equal_value() {
    // Target 20 in 10, 20, 20, 30: the first 20.
    let line = [
        (1, Some(Ordering::Less)),
        (2, Some(Ordering::Equal)),
        (3, Some(Ordering::Equal)),
        (4, Some(Ordering::Greater)),
    ];
    assert_eq!(find_ordered(&line, Ordering::Greater), Some(2));
}

#[test]
fn ascending_search_below_everything_finds_nothing() {
    let line = [(1, Some(Ordering::Greater)), (2, Some(Ordering::Greater))];
    assert_eq!(find_ordered(&line, Ordering::Greater), None);
}

#[test]
fn ascending_search_above_everything_takes_the_last() {
    let line = [(1, Some(Ordering::Less)), (2, Some(Ordering::Less)), (3, Some(Ordering::Less))];
    assert_eq!(find_ordered(&line, Ordering::Greater), Some(3));
}

#[test]
fn incomparable_candidates_are_stepped_over() {
    // Text among numbers compares with nothing and is skipped.
    let line = [(1, Some(Ordering::Less)), (2, None), (3, Some(Ordering::Greater))];
    assert_eq!(find_ordered(&line, Ordering::Greater), Some(1));
    let trailing = [(1, Some(Ordering::Less)), (2, None)];
    assert_eq!(find_ordered(&trailing, Ordering::Greater), Some(1));
}

#[test]
fn descending_search_finds_the_smallest_at_or_above() {
    // Target 25 in 40, 30, 20, 10: the answer is 30, at position 2.
    let line = [
        (1, Some(Ordering::Greater)),
        (2, Some(Ordering::Greater)),
        (3, Some(Ordering::Less)),
        (4, Some(Ordering::Less)),
    ];
    assert_eq!(find_ordered(&line, Ordering::Less), Some(2));
}
