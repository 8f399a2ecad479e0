use puzzle_solvers::schematic::{calc_solution_1, calc_solution_2, get_gear_ratio, get_num, get_sum_around_part};

const EXAMPLE: &str = "467..114..
...*......
..35..633.
......#...
617*......
.....+.58.
..592.....
......755.
...$.*....
.664.598..";

fn grid(text: &str) -> Vec<Vec<char>> {
    text.lines().map(|line| line.chars().collect()).collect()
}

#[test]
fn test_get_num() {
    let input: Vec<_> = ".874.772.".chars().collect();

    // Dots
    for i in [0, 4, 8] {
        assert_eq!(None, get_num(&input, i));
    }

    // First num, 874
    for i in 1..=3 {
        assert_eq!(Some(874), get_num(&input, i));
    }

    // Second num, 772
    for i in 5..=7 {
        assert_eq!(Some(772), get_num(&input, i));
    }

    // Out of bounds
    assert_eq!(None, get_num(&input, input.len()));
}

#[test]
fn test_get_sum_around_part() {
    let input: Vec<Vec<char>> = grid("1.2\n3*4\n.5.");
    assert_eq!(15, get_sum_around_part(&input, 1, 1));
}

#[test]
fn test_get_sum_around_part_with_skipping() {
    let input: Vec<Vec<char>> = grid(".333.\n.*...\n222..");
    assert_eq!(555, get_sum_around_part(&input, 1, 1));
}

#[test]
fn test_first_half_basic() {
    let input = "1.2\n3*4\n.5.";
    assert_eq!(15, calc_solution_1(&input));
}

#[test]
fn test_first_half() {
    assert_eq!(4361, calc_solution_1(EXAMPLE));
}

#[test]
fn test_second_half() {
    assert_eq!(467835, calc_solution_2(EXAMPLE));
}

#[test]
fn gear_ratios_of_example() {
    let mat = grid(EXAMPLE);
    assert_eq!(Some(16345), get_gear_ratio(&mat, 1, 3));
    assert_eq!(None, get_gear_ratio(&mat, 4, 3));
    assert_eq!(Some(451490), get_gear_ratio(&mat, 8, 5));
    assert_eq!(None, get_gear_ratio(&mat, 0, 0));
    assert_eq!(None, get_gear_ratio(&mat, 40, 0));
}

#[test]
fn symbols_on_the_border() {
    assert_eq!(12, calc_solution_1("*12\n..."));
    assert_eq!(0, calc_solution_1(""));
    assert_eq!(7, calc_solution_1("7..\n.#.\n"));
}
