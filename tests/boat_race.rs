use puzzle_solvers::boat_race::{calc_solution_1, calc_solution_2, parse, parse2, Race};

const TEST_INPUT: &str = "Time:      7  15   30
Distance:  9  40  200
";

fn example_races() -> Vec<Race> {
    vec![Race { time: 7, dist: 9 }, Race { time: 15, dist: 40 }, Race { time: 30, dist: 200 }]
}

#[test]
fn race_sheet_parsing() {
    assert_eq!(Some(example_races()), parse(TEST_INPUT));
    assert_eq!(Some(Race { time: 71530, dist: 940200 }), parse2(TEST_INPUT));
    assert_eq!(None, parse("Time: 7"));
    assert_eq!(None, parse("Time 7\nDistance: 9"));
    assert_eq!(Some(vec![Race { time: 7, dist: 9 }]), parse("Time: 7 8\nDistance: 9"));
    assert_eq!(None, parse("Time: 99999999999999999999\nDistance: 9"));
}

#[test]
fn race_sheet_answers() {
    assert_eq!(288, calc_solution_1(TEST_INPUT));
    assert_eq!(71503, calc_solution_2(TEST_INPUT));
}

#[test]
fn test_first_binary_search_left_bound() {
    let races = parse(TEST_INPUT).unwrap();
    for (race, res) in races.iter().take(3).zip([2, 4, 11]) {
        assert_eq!(res, race.search_for_bound(true));
    }
}

#[test]
fn test_first_binary_search_right_bound() {
    let races = parse(TEST_INPUT).unwrap();
    for (race, res) in races.iter().take(3).zip([5, 11, 19]) {
        assert_eq!(res, race.search_for_bound(false));
    }
}

#[test]
fn ways_to_win_example() {
    let ways: Vec<u64> = example_races().iter().map(|r| r.count_ways_to_win()).collect();
    assert_eq!(vec![4, 8, 9], ways);
    assert_eq!(288u64, ways.iter().product::<u64>());
    assert_eq!(71503, Race { time: 71530, dist: 940200 }.count_ways_to_win());
}

#[test]
fn races_that_cannot_be_won() {
    assert_eq!(0, Race { time: 1, dist: 0 }.count_ways_to_win());
    assert_eq!(0, Race { time: 10, dist: 25 }.count_ways_to_win());
    assert_eq!(1, Race { time: 10, dist: 24 }.count_ways_to_win());
    assert!(Race { time: 10, dist: 24 }.does_time_win(5));
    assert!(!Race { time: 10, dist: 24 }.does_time_win(4));
}
