use puzzle_solvers::rope::{
    adjust_tail_pos_based_on_head, calc_position_count, calc_snake_tail_positions_count, Direction,
    Move, Position,
};

const TEST_INPUT: &str = "R 4
U 4
L 3
D 1
R 4
D 1
L 5
R 2";

const TEST_INPUT2: &str = "R 5
U 8
L 8
D 3
R 17
D 10
L 25
U 20";

fn moves_of(text: &str) -> Vec<Move> {
    text.lines()
        .filter_map(|line| {
            let mut parts = line.trim().split(' ');
            let direction = match parts.next()? {
                "R" => Direction::R,
                "U" => Direction::U,
                "L" => Direction::L,
                "D" => Direction::D,
                _ => return None,
            };
            let count = parts.next()?.parse().ok()?;
            Some(Move { direction, count })
        })
        .collect()
}

#[test]
fn first_half_example_test() {
    let moves = moves_of(TEST_INPUT);
    assert_eq!(13, calc_position_count(&moves));
}

#[test]
fn second_half_example_test() {
    let moves = moves_of(TEST_INPUT2);
    assert_eq!(36, calc_snake_tail_positions_count(&moves, 10));
}

#[test]
fn check_generality_of_snake_fn() {
    let moves = moves_of(TEST_INPUT);
    assert_eq!(13, calc_snake_tail_positions_count(&moves, 2));
}

#[test]
fn long_rope_on_first_example() {
    let moves = moves_of(TEST_INPUT);
    assert_eq!(1, calc_snake_tail_positions_count(&moves, 10));
    assert_eq!(0, calc_snake_tail_positions_count(&moves, 1));
    assert_eq!(1, calc_position_count(&vec![]));
}

#[test]
fn tail_following() {
    let mut tail = Position(0, 0);
    adjust_tail_pos_based_on_head(&mut tail, &Position(1, 1));
    assert_eq!(Position(0, 0), tail);
    adjust_tail_pos_based_on_head(&mut tail, &Position(0, 2));
    assert_eq!(Position(0, 1), tail);
    let mut tail = Position(0, 0);
    adjust_tail_pos_based_on_head(&mut tail, &Position(1, 2));
    assert_eq!(Position(1, 1), tail);
    let mut tail = Position(0, 0);
    adjust_tail_pos_based_on_head(&mut tail, &Position(-2, -2));
    assert_eq!(Position(-1, -1), tail);
}
