use puzzle_solvers::scratchcards::{calc_solution_1, parse};

const TEST_INPUT: &str = "Card 1: 41 48 83 86 17 | 83 86  6 31 17  9 48 53
Card 2: 13 32 20 16 61 | 61 30 68 82 17 32 24 19
Card 3:  1 21 53 59 44 | 69 82 63 72 16 21 14  1
Card 4: 41 92 73 84 69 | 59 84 76 51 58  5 54 83
Card 5: 87 83 26 28 32 | 88 30 70 12 93 22 82 36
Card 6: 31 18 13 56 72 | 74 77 10 23 35 67 36 11";

#[test]
fn scratchcard_points_example() {
    assert_eq!(13, calc_solution_1(TEST_INPUT));
}

#[test]
fn scratchcard_parsing() {
    let cards = parse(TEST_INPUT).unwrap();
    assert_eq!(6, cards.len());
    assert_eq!(vec![41, 48, 83, 86, 17], cards[0].0);
    assert_eq!(vec![83, 86, 6, 31, 17, 9, 48, 53], cards[0].1);
    assert_eq!(None, parse("Card 1: 1 2 3"));
    assert_eq!(None, parse("Card 1 1 2 | 3"));
    assert_eq!(Some(vec![(vec![], vec![5])]), parse("Card 9: | 5"));
}

#[test]
fn scratchcard_doubling() {
    assert_eq!(1, calc_solution_1("Card 1: 5 | 5"));
    assert_eq!(4, calc_solution_1("Card 1: 1 2 3 | 3 2 1"));
    assert_eq!(0, calc_solution_1(""));
}
