use puzzle_solvers::calories::calc_new_max_sums;
use puzzle_solvers::sections::{count_contained_pairs, str_to_sections_bounds, SectionError};

#[test]
fn section_bounds() {
    assert_eq!(Ok((2, 4)), str_to_sections_bounds("2-4"));
    assert_eq!(Ok((7, 0)), str_to_sections_bounds("7"));
    assert_eq!(Ok((3, 5)), str_to_sections_bounds("+3-5"));
    assert_eq!(Err(SectionError::InvalidNumber), str_to_sections_bounds("a-4"));
    assert_eq!(Err(SectionError::InvalidNumber), str_to_sections_bounds(""));
    assert_eq!(Err(SectionError::InvalidNumber), str_to_sections_bounds("1-99999999999"));
}

#[test]
fn contained_pairs_example() {
    let input = "2-4,6-8\n2-3,4-5\n5-7,7-9\n2-8,3-7\n6-6,4-6\n2-6,4-8";
    assert_eq!(2, count_contained_pairs(input));
    assert_eq!(0, count_contained_pairs("2-8"));
}

#[test]
fn top_three_calorie_sums() {
    let mut max_sums = vec![0u32, 0, 0];
    for sum in [6000, 4000, 11000, 24000, 10000] {
        calc_new_max_sums(&mut max_sums, sum);
    }
    assert_eq!(vec![10000, 11000, 24000], max_sums);
    assert_eq!(45000u32, max_sums.iter().sum::<u32>());
}
