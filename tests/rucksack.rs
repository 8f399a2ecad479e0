use puzzle_solvers::rucksack::{find_common_elements, find_group_score, sum_of_common_priorities_of_rucksack, type_to_score};

#[test]
fn priorities() {
    assert_eq!(1, type_to_score('a'));
    assert_eq!(26, type_to_score('z'));
    assert_eq!(27, type_to_score('A'));
    assert_eq!(52, type_to_score('Z'));
}

#[test]
fn common_item_is_the_smallest_shared_one() {
    assert_eq!('a', find_common_elements("ba", "ab"));
    assert_eq!('p', find_common_elements("vJrwpWtwJgWr", "hcsFMMfFFhFp"));
    assert_eq!('L', find_common_elements("jqHRNqRjqzjGDLGL", "rsFMfFZSrLrFZsSL"));
}

#[test]
fn rucksack_example() {
    let sacks = [
        "vJrwpWtwJgWrhcsFMMfFFhFp",
        "jqHRNqRjqzjGDLGLrsFMfFZSrLrFZsSL",
        "PmmdzqPrVvPwwTWBwg",
        "wMqvLMZHhHMvwLHjbvcjnnSBnvTQFn",
        "ttgJtRGJQctTZtZT",
        "CrZsJsPPZsGzwwsLwLmpwMDw",
    ];
    let scores: Vec<u32> = sacks.iter().map(|s| sum_of_common_priorities_of_rucksack(s.to_string())).collect();
    assert_eq!(vec![16, 38, 42, 22, 20, 19], scores);
    assert_eq!(157u32, scores.iter().sum::<u32>());
}

#[test]
fn group_badges() {
    assert_eq!(18, find_group_score("vJrwpWtwJgWrhcsFMMfFFhFp", "jqHRNqRjqzjGDLGLrsFMfFZSrLrFZsSL", "PmmdzqPrVvPwwTWBwg"));
    assert_eq!(52, find_group_score("wMqvLMZHhHMvwLHjbvcjnnSBnvTQFn", "ttgJtRGJQctTZtZT", "CrZsJsPPZsGzwwsLwLmpwMDw"));
    assert_eq!(1, find_group_score("ba", "ab", "ab"));
}
