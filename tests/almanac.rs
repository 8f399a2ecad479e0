use puzzle_solvers::seed_map::{calc_solution_1, parse_input, Mapping};

const TEST_INPUT: &str = "seeds: 79 14 55 13

seed-to-soil map:
50 98 2
52 50 48

soil-to-fertilizer map:
0 15 37
37 52 2
39 0 15

fertilizer-to-water map:
49 53 8
0 11 42
42 0 7
57 7 4

water-to-light map:
88 18 7
18 25 70

light-to-temperature map:
45 77 23
81 45 19
68 64 13

temperature-to-humidity map:
0 69 1
1 0 69

humidity-to-location map:
60 56 37
56 93 4
";

#[test]
fn almanac_lowest_location() {
    assert_eq!(35, calc_solution_1(TEST_INPUT));
}

#[test]
fn almanac_parsing() {
    let (seeds, maps) = parse_input(TEST_INPUT).unwrap();
    assert_eq!(vec![79, 14, 55, 13], seeds);
    assert_eq!(7, maps.len());
    assert_eq!(
        vec![Mapping { dst_start: 50, src_start: 98, len: 2 }, Mapping { dst_start: 52, src_start: 50, len: 48 }],
        maps[0]
    );
    assert_eq!(2, maps[6].len());
    assert_eq!(None, parse_input(""));
    assert_eq!(None, parse_input("seeds: 9999999999999999999"));
    assert_eq!(i64::MAX, calc_solution_1("seeds:\n\nx map:\n1 2 3"));
}
