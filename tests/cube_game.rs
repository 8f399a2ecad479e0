use puzzle_solvers::cube_game::{calc_solution_1, calc_solution_2, parse_draw, parse_input, Draw};

const TEST_INPUT: &str = "Game 1: 3 blue, 4 red; 1 red, 2 green, 6 blue; 2 green
Game 2: 1 blue, 2 green; 3 green, 4 blue, 1 red; 1 green, 1 blue
Game 3: 8 green, 6 blue, 20 red; 5 blue, 4 red, 13 green; 5 green, 1 red
Game 4: 1 green, 3 red, 6 blue; 3 green, 6 red; 3 green, 15 blue, 14 red
Game 5: 6 red, 1 blue, 3 green; 2 blue, 1 red, 2 green";

#[test]
fn cube_record_answers() {
    assert_eq!(8, calc_solution_1(TEST_INPUT));
    assert_eq!(2286, calc_solution_2(TEST_INPUT));
}

#[test]
fn cube_record_parsing() {
    let games = parse_input(TEST_INPUT).unwrap();
    assert_eq!(5, games.len());
    assert_eq!(3, games[2].index);
    assert_eq!(
        vec![Draw { red: 4, green: 0, blue: 3 }, Draw { red: 1, green: 2, blue: 6 }, Draw { red: 0, green: 2, blue: 0 }],
        games[0].draws
    );
    let skipped = parse_input("no colon here\nGame 7: 1 red").unwrap();
    assert_eq!(1, skipped.len());
    assert_eq!(1, skipped[0].index);
}

#[test]
fn draw_parsing() {
    assert_eq!(Draw { red: 4, green: 0, blue: 3 }, parse_draw(b" 3 blue, 4 red"));
    assert_eq!(Draw { red: 2, green: 0, blue: 0 }, parse_draw(b"1 red, 2 red"));
    assert_eq!(Draw { red: 0, green: 0, blue: 0 }, parse_draw(b"5 purple, 7"));
    assert_eq!(Draw { red: 0, green: 12, blue: 0 }, parse_draw(b"x12 green"));
    assert_eq!(Draw { red: 0, green: 0, blue: 0 }, parse_draw(b"99999999999 blue"));
}
