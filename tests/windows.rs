use puzzle_solvers::quartet::{
    check_quartet_for_duplicates, find_first_nonduplicate_quartet_end_index, EqualityResult,
};
use puzzle_solvers::unique_window::{find_end_of_first_unique_substr, find_first_duplicate, DuplicateIndex};

#[test]
fn test21() {
    let input = "mjqjpqmgbljsphdztnvjfqwrcgsmlb".as_bytes();
    assert_eq!(find_end_of_first_unique_substr(input, 14), Ok(19));
}

#[test]
fn test22() {
    let input = "bvwbjplbgvbhsrlpgdmjqwftvncz".as_bytes();
    assert_eq!(find_end_of_first_unique_substr(input, 14), Ok(23));
}

#[test]
fn test23() {
    let input = "nppdvjthqldpwncqszvftbrmjlhg".as_bytes();
    assert_eq!(find_end_of_first_unique_substr(input, 14), Ok(23));
}

#[test]
fn test24() {
    let input = "nznrnfrfntjfmvfwmzdfjlvtqnbhcprsg".as_bytes();
    assert_eq!(find_end_of_first_unique_substr(input, 14), Ok(29));
}

#[test]
fn test25() {
    let input = "zcfzfwzzqfrljwzlrfnpqdbhtmscgvjw".as_bytes();
    assert_eq!(find_end_of_first_unique_substr(input, 14), Ok(26));
}

#[test]
fn test_check_eq_with_duplicates() {
    let input = "mjqj".as_bytes();
    assert_eq!(find_first_duplicate(input), DuplicateIndex::Index(1));
}

#[test]
fn test_check_eq_with_no_duplicates() {
    let input = "mjqw".as_bytes();
    assert_eq!(find_first_duplicate(input), DuplicateIndex::NoDuplicates);
}

#[test]
fn test_check_eq_with_small_input() {
    let input = "m".as_bytes();
    assert_eq!(find_first_duplicate(input), DuplicateIndex::NoDuplicates);
}

#[test]
fn test_check_eq_with_large_input() {
    let input = "mjqwtxyzp".as_bytes();
    assert_eq!(find_first_duplicate(input), DuplicateIndex::NoDuplicates);
}

#[test]
fn unique_window_of_four_and_none() {
    assert_eq!(find_end_of_first_unique_substr("mjqjpqmgbljsphdztnvjfqwrcgsmlb".as_bytes(), 4), Ok(7));
    assert!(find_end_of_first_unique_substr("aaaa".as_bytes(), 2).is_err());
    assert!(find_end_of_first_unique_substr("".as_bytes(), 1).is_err());
}

#[test]
fn test1() {
    let input = "bvwbjplbgvbhsrlpgdmjqwftvncz".as_bytes();
    assert_eq!(find_first_nonduplicate_quartet_end_index(input), Ok(5));
}

#[test]
fn test2() {
    let input = "nppdvjthqldpwncqszvftbrmjlhg".as_bytes();
    assert_eq!(find_first_nonduplicate_quartet_end_index(input), Ok(6));
}

#[test]
fn test3() {
    let input = "nznrnfrfntjfmvfwmzdfjlvtqnbhcprsg".as_bytes();
    assert_eq!(find_first_nonduplicate_quartet_end_index(input), Ok(10));
}

#[test]
fn test4() {
    let input = "zcfzfwzzqfrljwzlrfnpqdbhtmscgvjw".as_bytes();
    assert_eq!(find_first_nonduplicate_quartet_end_index(input), Ok(11));
}

#[test]
fn test_check_quartet_with_duplicates() {
    let input = "mjqj".as_bytes();
    assert_eq!(
        check_quartet_for_duplicates(input),
        Ok(EqualityResult::IndexOfFirstDuplicate(1))
    );
}

#[test]
fn test_check_quartet_with_no_duplicates() {
    let input = "mjqw".as_bytes();
    assert_eq!(check_quartet_for_duplicates(input), Ok(EqualityResult::NoDuplicates));
}

#[test]
fn test_check_quartet_with_too_small_input() {
    let input = "mjq".as_bytes();
    assert_eq!(check_quartet_for_duplicates(input), Err(()));
}

#[test]
fn test_check_quartet_with_too_large_input() {
    let input = "mjqwt".as_bytes();
    assert_eq!(check_quartet_for_duplicates(input), Err(()));
}
