use scrabble_search::allocation::AllocationPair;
use scrabble_search::pair_search::Combination;

fn comb_with_excess(te: i32) -> Combination {
    // First word of 13 letters; its points exceed its length by `te`.
    Combination {
        first_word_length: 13,
        first_word_points: 13 + te,
        second_word_length: 7,
        second_word_points: 20,
    }
}

fn pair(first: Vec<char>, second: Vec<char>) -> AllocationPair {
    AllocationPair {
        first_word_subset: first,
        second_word_subset: second,
    }
}

#[test]
fn only_subset_with_matching_excess_qualifies() {
    // d is worth 2 (excess 1), f is worth 4 (excess 3); required excess 3
    // admits only {f}, leaving {d} for the second word.
    let c = comb_with_excess(3);
    let r = c.find_higher_value_letter_combinations(&vec!['d', 'f']);
    assert_eq!(r, vec![pair(vec!['f'], vec!['d'])]);
}

#[test]
fn empty_higher_value_letters_zero_excess_gives_single_empty_pair() {
    let c = comb_with_excess(0);
    let r = c.find_higher_value_letter_combinations(&vec![]);
    assert_eq!(r, vec![pair(vec![], vec![])]);
}

#[test]
fn empty_higher_value_letters_positive_excess_gives_nothing() {
    let c = comb_with_excess(2);
    let r = c.find_higher_value_letter_combinations(&vec![]);
    assert!(r.is_empty());
}

#[test]
fn repeated_letters_produce_one_pair_only() {
    // Two d's: both single-letter combinations have the same value-multiset,
    // so only one allocation survives the duplicate check.
    let c = comb_with_excess(1);
    let r = c.find_higher_value_letter_combinations(&vec!['d', 'd']);
    assert_eq!(r, vec![pair(vec!['d'], vec!['d'])]);
}

#[test]
fn index_distinct_value_identical_subsets_collapse() {
    // c has excess 2, d has excess 1. Required excess 3 is met by {c, d}
    // twice over indices (either c), but only one value-multiset.
    let c = comb_with_excess(3);
    let r = c.find_higher_value_letter_combinations(&vec!['c', 'c', 'd']);
    assert_eq!(r, vec![pair(vec!['c', 'd'], vec!['c'])]);
}

#[test]
fn subsets_come_in_size_ascending_order() {
    // c: excess 2, d: excess 1, f: excess 3. Required excess 3: {f} (size 1)
    // before {c, d} (size 2).
    let c = comb_with_excess(3);
    let r = c.find_higher_value_letter_combinations(&vec!['c', 'd', 'f']);
    assert_eq!(
        r,
        vec![
            pair(vec!['f'], vec!['c', 'd']),
            pair(vec!['c', 'd'], vec!['f']),
        ]
    );
}

#[test]
fn subset_and_complement_partition_the_letters() {
    let c = comb_with_excess(4);
    let hvl = vec!['b', 'd', 'd', 'g'];
    let r = c.find_higher_value_letter_combinations(&hvl);
    // b: excess 2, d: excess 1, g: excess 1. Excess 4 is met by {b, d, d}
    // and by {b, d, g} (index-distinct twice, kept once).
    assert_eq!(r.len(), 2);
    for p in &r {
        let mut together: Vec<char> =
            p.first_word_subset.iter().chain(p.second_word_subset.iter()).copied().collect();
        together.sort();
        let mut all = hvl.clone();
        all.sort();
        assert_eq!(together, all);
    }
}

#[test]
fn no_two_pairs_share_a_first_subset_multiset() {
    let c = comb_with_excess(4);
    let r = c.find_higher_value_letter_combinations(&vec!['b', 'd', 'd', 'g']);
    let mut firsts: Vec<Vec<char>> = Vec::new();
    for p in &r {
        let mut sorted = p.first_word_subset.clone();
        sorted.sort();
        assert!(!firsts.contains(&sorted));
        firsts.push(sorted);
    }
}

#[test]
fn allocation_search_is_idempotent() {
    let c = comb_with_excess(3);
    let hvl = vec!['c', 'c', 'd', 'f'];
    let a = c.find_higher_value_letter_combinations(&hvl);
    let b = c.find_higher_value_letter_combinations(&hvl);
    assert_eq!(a, b);
}

#[test]
fn zero_excess_with_higher_value_letters_yields_nothing() {
    // Every non-empty subset of higher-value letters carries excess, so a
    // first word at its one-point floor admits no allocation.
    let c = comb_with_excess(0);
    let r = c.find_higher_value_letter_combinations(&vec!['d', 'f']);
    assert!(r.is_empty());
}

#[test]
fn unreachable_excess_yields_nothing() {
    // Maximum excess of {d, f} is 4; 9 cannot be met.
    let c = comb_with_excess(9);
    let r = c.find_higher_value_letter_combinations(&vec!['d', 'f']);
    assert!(r.is_empty());
}
