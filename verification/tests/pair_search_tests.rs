use scrabble_search::pair_search::{pair_search, Combination};

fn comb(l1: i32, p1: i32, l2: i32, p2: i32) -> Combination {
    Combination {
        first_word_length: l1,
        first_word_points: p1,
        second_word_length: l2,
        second_word_points: p2,
    }
}

#[test]
fn finds_both_splits_for_reachable_target() {
    // Inventory excess 8, target 320: 14*19 + 6*9 = 320 and 15*18 + 5*10 = 320.
    let r = pair_search(8, 320);
    assert_eq!(r, vec![comb(14, 19, 6, 9), comb(15, 18, 5, 10)]);
}

#[test]
fn emitted_combinations_split_twenty_letters_and_hit_target() {
    let target = 333;
    let r = pair_search(13, target);
    assert!(!r.is_empty());
    for c in &r {
        assert_eq!(c.first_word_length + c.second_word_length, 20);
        assert_eq!(
            c.first_word_length * c.first_word_points
                + c.second_word_length * c.second_word_points,
            target
        );
        assert_eq!(c.first_word_points + c.second_word_points, 20 + 13);
    }
}

#[test]
fn excess_thirteen_target_333_yields_exactly_two_splits() {
    // 11*18 + 9*15 = 333 and 13*17 + 7*16 = 333; no other allowed length works.
    let r = pair_search(13, 333);
    assert_eq!(r, vec![comb(11, 18, 9, 15), comb(13, 17, 7, 16)]);
    assert!(r.contains(&comb(13, 17, 7, 16)));
}

#[test]
fn odd_target_has_no_two_word_split() {
    // Every candidate total is even, so an odd target yields nothing.
    let r = pair_search(12, 353);
    assert!(r.is_empty());
}

#[test]
fn single_word_target_short_circuits() {
    // All 20 letters at full points: 20 * (20 + 8) = 560.
    let r = pair_search(8, 560);
    assert_eq!(r, vec![comb(20, 28, 0, 0)]);
}

#[test]
fn zero_excess_all_ones_inventory() {
    // Excess 0: the first word's points equal its length; 10*10 + 10*10 = 200.
    let r = pair_search(0, 200);
    assert_eq!(r, vec![comb(10, 10, 10, 10)]);
}

#[test]
fn pair_search_is_deterministic() {
    let a = pair_search(13, 333);
    let b = pair_search(13, 333);
    assert_eq!(a, b);
    let c = pair_search(0, 1);
    let d = pair_search(0, 1);
    assert_eq!(c, d);
}

#[test]
fn negative_target_yields_nothing() {
    let r = pair_search(5, -7);
    assert!(r.is_empty());
}
