use scrabble_search::inventory::{display_letters, Inventory};
use scrabble_search::points::point_value;

fn example_letters() -> Vec<char> {
    "acdeeeefillooprrsttt".chars().collect()
}

#[test]
fn point_table_matches_scrabble_values() {
    assert_eq!(point_value('a'), 1);
    assert_eq!(point_value('b'), 3);
    assert_eq!(point_value('d'), 2);
    assert_eq!(point_value('f'), 4);
    assert_eq!(point_value('j'), 8);
    assert_eq!(point_value('k'), 5);
    assert_eq!(point_value('q'), 10);
    assert_eq!(point_value('z'), 10);
}

#[test]
fn valid_twenty_letters_build_an_inventory() {
    let inv = Inventory::new(example_letters());
    assert!(inv.is_some());
    assert_eq!(inv.unwrap().letters, example_letters());
}

#[test]
fn wrong_length_is_rejected() {
    let nineteen: Vec<char> = "acdeeeefillooprrstt".chars().collect();
    assert!(Inventory::new(nineteen).is_none());
    assert!(Inventory::new(Vec::new()).is_none());
}

#[test]
fn non_letters_are_rejected() {
    let with_digit: Vec<char> = "acdeeeefillooprrstt7".chars().collect();
    assert!(Inventory::new(with_digit).is_none());
    let uppercase: Vec<char> = "ACDEEEEFILLOOPRRSTTT".chars().collect();
    assert!(Inventory::new(uppercase).is_none());
}

#[test]
fn excess_points_is_point_sum_minus_twenty() {
    // Points: a1 c3 d2 e1*4 f4 i1 l1*2 o1*2 p3 r1*2 s1 t1*3 = 28; excess 8.
    let inv = Inventory::new(example_letters()).unwrap();
    assert_eq!(inv.excess_points(), 8);
}

#[test]
fn all_one_point_letters_have_zero_excess() {
    let ones: Vec<char> = "aeeiilnoorrssttuuaen".chars().collect();
    let inv = Inventory::new(ones).unwrap();
    assert_eq!(inv.excess_points(), 0);
    assert!(inv.higher_value_letters().is_empty());
}

#[test]
fn higher_value_letters_keep_inventory_order_and_repeats() {
    let inv = Inventory::new(example_letters()).unwrap();
    assert_eq!(inv.higher_value_letters(), vec!['c', 'd', 'f', 'p']);

    let doubled: Vec<char> = "bbaaaaaaaaaaaaaaaaad".chars().collect();
    let inv2 = Inventory::new(doubled).unwrap();
    assert_eq!(inv2.higher_value_letters(), vec!['b', 'b', 'd']);
}

#[test]
fn display_uppercases_and_separates_with_spaces() {
    assert_eq!(display_letters(&vec!['a', 'b', 'c']), "A B C ");
    assert_eq!(display_letters(&Vec::new()), "");
}
