use puzzle_solvers::sensor_input::parse_sensors;
use puzzle_solvers::coverage::{
    clip_to_domain, count_uncertain_positions, find_uncovered_point, get_minmax_xy,
    interval_at_row, merge, min_index, row_gap, tuning_frequency, GapError, Interval, Position,
    RowGap, Sensor,
};

fn sensor(sx: i64, sy: i64, bx: i64, by: i64) -> Sensor {
    Sensor { self_pos: Position { x: sx, y: sy }, beacon: Position { x: bx, y: by } }
}

fn example_sensors() -> Vec<Sensor> {
    vec![
        sensor(2, 18, -2, 15),
        sensor(9, 16, 10, 16),
        sensor(13, 2, 15, 3),
        sensor(12, 14, 10, 16),
        sensor(10, 20, 10, 16),
        sensor(14, 17, 10, 16),
        sensor(8, 7, 2, 10),
        sensor(2, 0, 2, 10),
        sensor(0, 11, 2, 10),
        sensor(20, 14, 25, 17),
        sensor(17, 20, 21, 22),
        sensor(16, 7, 15, 3),
        sensor(14, 3, 15, 3),
        sensor(20, 1, 15, 3),
    ]
}

const EXAMPLE: &str = "Sensor at x=2, y=18: closest beacon is at x=-2, y=15
Sensor at x=9, y=16: closest beacon is at x=10, y=16
Sensor at x=13, y=2: closest beacon is at x=15, y=3
Sensor at x=12, y=14: closest beacon is at x=10, y=16
Sensor at x=10, y=20: closest beacon is at x=10, y=16
Sensor at x=14, y=17: closest beacon is at x=10, y=16
Sensor at x=8, y=7: closest beacon is at x=2, y=10
Sensor at x=2, y=0: closest beacon is at x=2, y=10
Sensor at x=0, y=11: closest beacon is at x=2, y=10
Sensor at x=20, y=14: closest beacon is at x=25, y=17
Sensor at x=17, y=20: closest beacon is at x=21, y=22
Sensor at x=16, y=7: closest beacon is at x=15, y=3
Sensor at x=14, y=3: closest beacon is at x=15, y=3
Sensor at x=20, y=1: closest beacon is at x=15, y=3
";

fn iv(lo: i64, hi: i64) -> Interval {
    Interval { lo, hi }
}

#[test]
fn main_test_first_half() {
    let sensors = parse_sensors(EXAMPLE).unwrap();
    let expected: [(u64, i64); 37] = [
        (1, -10), (3, -9), (5, -8), (7, -7), (10, -6), (14, -5), (18, -4), (22, -3), (26, -2),
        (31, -1), (34, 0), (34, 1), (32, 2), (29, 3), (29, 4), (27, 5), (25, 6), (21, 7),
        (23, 8), (25, 9), (26, 10), (27, 11), (29, 12), (29, 13), (28, 14), (29, 15), (28, 16),
        (28, 17), (29, 18), (28, 19), (25, 20), (25, 21), (20, 22), (15, 23), (9, 24), (4, 25),
        (1, 26),
    ];
    for (count, row) in expected {
        assert_eq!(count, count_uncertain_positions(&sensors, row), "row {}", row);
    }
}

#[test]
fn main_test_second_half() {
    let sensors = parse_sensors(EXAMPLE).unwrap();
    let point = find_uncovered_point(&sensors, 20).unwrap();
    assert_eq!(56000011, tuning_frequency(point));
}

#[test]
fn end_to_end_example() {
    let sensors = example_sensors();
    assert_eq!(9, sensors[6].dist());
    assert_eq!(26, count_uncertain_positions(&sensors, 10));
    assert_eq!(Ok(Position { x: 14, y: 11 }), find_uncovered_point(&sensors, 20));
}

#[test]
fn extraction_at_center_and_beyond() {
    let s = sensor(8, 7, 2, 10);
    assert_eq!(Some(iv(-1, 17)), interval_at_row(&s, 7));
    assert_eq!(None, interval_at_row(&s, 17));
    assert_eq!(Some(iv(8, 8)), interval_at_row(&s, 16));
    assert_eq!(Some(iv(8, 8)), interval_at_row(&s, -2));
    assert_eq!(None, interval_at_row(&s, -3));
}

#[test]
fn extraction_negative_coordinates() {
    let s = sensor(-5, -5, -7, -6);
    assert_eq!(3, s.dist());
    assert_eq!(Some(iv(-7, -3)), interval_at_row(&s, -4));
}

#[test]
fn merge_edge_cases() {
    assert_eq!(Vec::<Interval>::new(), merge(&vec![]));
    assert_eq!(vec![iv(3, 5)], merge(&vec![iv(3, 5)]));
    assert_eq!(vec![iv(3, 5)], merge(&vec![iv(3, 5), iv(3, 5), iv(3, 5)]));
    // adjacent intervals fuse, a one-point gap stays
    assert_eq!(vec![iv(0, 7)], merge(&vec![iv(4, 7), iv(0, 3)]));
    assert_eq!(vec![iv(0, 3), iv(5, 7)], merge(&vec![iv(5, 7), iv(0, 3)]));
    assert_eq!(vec![iv(-4, 10)], merge(&vec![iv(2, 10), iv(-4, 1), iv(3, 4)]));
}

#[test]
fn merge_is_idempotent() {
    let once = merge(&vec![iv(10, 12), iv(1, 4), iv(3, 6), iv(8, 8)]);
    assert_eq!(vec![iv(1, 6), iv(8, 8), iv(10, 12)], once);
    assert_eq!(once, merge(&once));
}

#[test]
fn merge_ignores_order() {
    let a = vec![iv(10, 12), iv(1, 4), iv(3, 6), iv(8, 8), iv(13, 20)];
    let b = vec![iv(8, 8), iv(13, 20), iv(3, 6), iv(10, 12), iv(1, 4)];
    assert_eq!(merge(&a), merge(&b));
    assert_eq!(vec![iv(1, 6), iv(8, 8), iv(10, 20)], merge(&a));
}

#[test]
fn merge_conserves_coverage() {
    let input = vec![iv(0, 9), iv(5, 14), iv(20, 20)];
    let merged = merge(&input);
    let total: i64 = merged.iter().map(|m| m.hi - m.lo + 1).sum();
    assert_eq!(16, total);
    assert!(total >= 15 && total <= 10 + 10 + 1);
}

#[test]
fn clip_to_domain_cases() {
    assert_eq!(Some(iv(0, 5)), clip_to_domain(iv(-3, 5), 20));
    assert_eq!(Some(iv(18, 20)), clip_to_domain(iv(18, 30), 20));
    assert_eq!(None, clip_to_domain(iv(21, 30), 20));
    assert_eq!(None, clip_to_domain(iv(-9, -1), 20));
}

#[test]
fn row_gap_cases() {
    assert_eq!(RowGap::Full, row_gap(&vec![iv(0, 10)], 10));
    assert_eq!(RowGap::Single(0), row_gap(&vec![iv(1, 10)], 10));
    assert_eq!(RowGap::Single(10), row_gap(&vec![iv(0, 9)], 10));
    assert_eq!(RowGap::Single(4), row_gap(&vec![iv(0, 3), iv(5, 10)], 10));
    assert_eq!(RowGap::Several, row_gap(&vec![iv(0, 3), iv(6, 10)], 10));
    assert_eq!(RowGap::Several, row_gap(&vec![iv(1, 9)], 10));
    assert_eq!(RowGap::Several, row_gap(&vec![], 10));
    assert_eq!(RowGap::Single(0), row_gap(&vec![], 0));
}

#[test]
fn gap_uniqueness_synthetic() {
    // Four sensors whose diamonds cover [0, 4] x [0, 4] except (2, 2).
    let sensors = vec![
        sensor(0, 0, 3, 0),
        sensor(4, 0, 1, 0),
        sensor(0, 4, 3, 4),
        sensor(4, 4, 1, 4),
        sensor(2, -1, 2, 1),
        sensor(2, 5, 2, 3),
        sensor(-1, 2, 1, 2),
        sensor(5, 2, 3, 2),
    ];
    assert_eq!(Ok(Position { x: 2, y: 2 }), find_uncovered_point(&sensors, 4));
}

#[test]
fn gap_errors() {
    assert_eq!(Err(GapError::NoSensors), find_uncovered_point(&vec![], 20));
    assert_eq!(Err(GapError::NoSensors), find_uncovered_point(&vec![], 0));
    let all = vec![sensor(10, 10, 10, 30)];
    assert_eq!(Err(GapError::NoGap), find_uncovered_point(&all, 20));
    let two = vec![sensor(0, 0, 0, 7)];
    assert_eq!(Err(GapError::AmbiguousGap), find_uncovered_point(&two, 9));
}

#[test]
fn empty_sensor_list_counts_nothing() {
    assert_eq!(0, count_uncertain_positions(&vec![], 10));
}

#[test]
fn occupied_points_are_not_uncertain() {
    let s = vec![sensor(0, 0, 2, 0)];
    // row 0 covers [-2, 2]; the sensor and its object stand at 0 and 2
    assert_eq!(3, count_uncertain_positions(&s, 0));
    assert_eq!(3, count_uncertain_positions(&s, 1));
}

#[test]
fn tuning_frequency_at_domain_corner() {
    assert_eq!(16_000_004_000_000, tuning_frequency(Position { x: 4_000_000, y: 4_000_000 }));
    assert_eq!(56_000_011, tuning_frequency(Position { x: 14, y: 11 }));
}

#[test]
fn bounding_box_and_min_index() {
    let sensors = example_sensors();
    assert_eq!(Some((-2, 0, 25, 22)), get_minmax_xy(&sensors));
    assert_eq!(None, get_minmax_xy(&vec![]));
    assert_eq!(Some(1), min_index(&vec![3, -1, 4, -1]));
    assert_eq!(None, min_index(&vec![]));
}

#[test]
fn parsing_sensor_records() {
    assert_eq!(Some(example_sensors()), parse_sensors(EXAMPLE));
    assert_eq!(Some(vec![]), parse_sensors(""));
    assert_eq!(
        Some(vec![sensor(-3, 4, 5, -6)]),
        parse_sensors("Sensor at x=-3, y=+4: closest beacon is at x=5, y=-6")
    );
    assert_eq!(None, parse_sensors("Sensor at x=1, y=2: closest beacon is at x=3"));
    assert_eq!(None, parse_sensors("Sensor at x=1, y=2: closest beacon is at x=3, y=4a"));
    assert_eq!(None, parse_sensors("Sensor at x=1, y=2: closest beacon is at x=3, y=99999999999999999"));
    assert_eq!(None, parse_sensors("Sensor at x=1, y=2: closest beacon is at x=3, y=4\n\n"));
}

#[test]
fn windows_line_endings_are_accepted() {
    let text = EXAMPLE.replace('\n', "\r\n");
    assert_eq!(Some(example_sensors()), parse_sensors(&text));
}

#[test]
fn count_ignores_order_and_repeats() {
    let sensors = example_sensors();
    let mut reversed = sensors.clone();
    reversed.reverse();
    let mut doubled = sensors.clone();
    doubled.extend(sensors.iter().copied());
    for row in -12..30 {
        let c = count_uncertain_positions(&sensors, row);
        assert_eq!(c, count_uncertain_positions(&reversed, row));
        assert_eq!(c, count_uncertain_positions(&doubled, row));
    }
    assert_eq!(find_uncovered_point(&sensors, 20), find_uncovered_point(&reversed, 20));
}

#[test]
fn single_sensor_counts() {
    // radius 9, object off the row: 19 covered positions minus the sensor
    assert_eq!(18, count_uncertain_positions(&vec![sensor(8, 7, 2, 10)], 7));
    // object on the sensor's row: minus both
    assert_eq!(2 * 3 + 1 - 2, count_uncertain_positions(&vec![sensor(0, 0, 3, 0)], 0));
    assert_eq!(0, count_uncertain_positions(&vec![sensor(8, 7, 2, 10)], 17));
    assert_eq!(0, count_uncertain_positions(&vec![sensor(8, 7, 2, 10)], -3));
}
