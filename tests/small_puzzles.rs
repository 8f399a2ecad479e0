use puzzle_solvers::calibration::{
    calc_solution_1 as calibration_sum, calc_solution_2 as spelled_calibration_sum,
    convert_char_digits_to_uint, digest_line, pad_out_and_convert_line, vec_to_num,
};
use puzzle_solvers::cube_game::{calc_solution_1_with_args, Draw, Game};
use puzzle_solvers::monkey::{calc_score, gcd, lcm, Monkey, MonkeyOp, Op, Operand, Test};
use puzzle_solvers::rock_paper::{calc_new_score, calc_old_score, ScoreError};
use puzzle_solvers::seed_map::{apply_map, rev_apply_map, Mapping};
use puzzle_solvers::signal::{calc_register_values_at_cycle, calc_signal_strengths, get_display_pixels, Op as CpuOp};

#[test]
fn test_digit_conversion() {
    let input = ['5' as u8; 64];
    let expected_output = [5 as u8; 64];

    let output = convert_char_digits_to_uint(input);

    assert_eq!(expected_output, output);
}

#[test]
fn digit_conversion_marks_other_bytes() {
    let mut input = [b'a'; 64];
    input[3] = b'7';
    input[10] = b'0';
    input[11] = b'/';
    let out = convert_char_digits_to_uint(input);
    assert_eq!(7, out[3]);
    assert_eq!(0, out[10]);
    assert_eq!(255, out[11]);
    assert_eq!(255, out[0]);
    assert_eq!(70, vec_to_num(out));
}

#[test]
fn calibration_lines() {
    let mut block = [0u8; 64];
    block[..10].copy_from_slice(b"pqr3stu8vw");
    assert_eq!(38, vec_to_num(convert_char_digits_to_uint(block)));
    let mut single = [0u8; 64];
    single[..10].copy_from_slice(b"treb7uchet");
    assert_eq!(77, vec_to_num(convert_char_digits_to_uint(single)));
    assert_eq!(29, digest_line("two1nine"));
    assert_eq!(83, digest_line("eightwothree"));
    assert_eq!(13, digest_line("abcone2threexyz"));
    assert_eq!(24, digest_line("xtwone3four"));
    assert_eq!(42, digest_line("4nineeightseven2"));
    assert_eq!(14, digest_line("zoneight234"));
    assert_eq!(76, digest_line("7pqrstsixteen"));
    assert_eq!(77, digest_line("treb7uchet"));
}

#[test]
fn cube_games() {
    let games = vec![
        Game { index: 1, draws: vec![Draw { red: 4, green: 0, blue: 3 }, Draw { red: 1, green: 2, blue: 6 }, Draw { red: 0, green: 2, blue: 0 }] },
        Game { index: 2, draws: vec![Draw { red: 0, green: 2, blue: 1 }, Draw { red: 1, green: 3, blue: 4 }, Draw { red: 0, green: 1, blue: 1 }] },
        Game { index: 3, draws: vec![Draw { red: 20, green: 8, blue: 6 }, Draw { red: 4, green: 13, blue: 5 }, Draw { red: 1, green: 5, blue: 0 }] },
        Game { index: 4, draws: vec![Draw { red: 3, green: 1, blue: 6 }, Draw { red: 6, green: 3, blue: 0 }, Draw { red: 14, green: 3, blue: 15 }] },
        Game { index: 5, draws: vec![Draw { red: 6, green: 3, blue: 1 }, Draw { red: 1, green: 2, blue: 2 }] },
    ];
    assert_eq!(8, calc_solution_1_with_args(&games, 14, 13, 12));
    let powers: Vec<u32> = games.iter().map(|g| g.power()).collect();
    assert_eq!(vec![48, 12, 1560, 630, 36], powers);
    assert_eq!(Draw { red: 20, green: 13, blue: 6 }, games[2].minimum_cubes());
    assert!(games[0].draws[0].is_valid(3, 0, 4));
    assert!(!games[0].is_valid(5, 5, 3));
}

#[test]
fn monkey_arithmetic() {
    assert_eq!(6, gcd(12, 18));
    assert_eq!(7, gcd(7, 0));
    assert_eq!(5, gcd(0, 5));
    assert_eq!(36, lcm(12, 18));
    assert_eq!(0, lcm(0, 5));
    let square = MonkeyOp { operand1: Operand::Old, op: Op::Mult, operand2: Operand::Old };
    assert_eq!(6241, square.apply_op(79));
    let plus = MonkeyOp { operand1: Operand::Old, op: Op::Add, operand2: Operand::Num(6) };
    assert_eq!(85, plus.apply_op(79));
    let test = Test { div: 23, truthy: 2, falsy: 3 };
    assert_eq!(2, test.test(46));
    assert_eq!(3, test.test(500));
}

#[test]
fn rock_paper_scores() {
    assert_eq!(Ok(8), calc_old_score('A', 'Y'));
    assert_eq!(Ok(1), calc_old_score('B', 'X'));
    assert_eq!(Ok(6), calc_old_score('C', 'Z'));
    assert_eq!(Ok(4), calc_new_score('A', 'Y'));
    assert_eq!(Ok(1), calc_new_score('B', 'X'));
    assert_eq!(Ok(7), calc_new_score('C', 'Z'));
    assert_eq!(Err(ScoreError::InvalidOwnMove('Q')), calc_old_score('A', 'Q'));
    assert_eq!(Err(ScoreError::InvalidMoves('D', 'X')), calc_old_score('D', 'X'));
    assert_eq!(Err(ScoreError::InvalidMoves('A', 'W')), calc_new_score('A', 'W'));
}

#[test]
fn seed_maps() {
    let seed_to_soil = vec![
        Mapping { dst_start: 50, src_start: 98, len: 2 },
        Mapping { dst_start: 52, src_start: 50, len: 48 },
    ];
    assert_eq!(81, apply_map(79, &seed_to_soil));
    assert_eq!(14, apply_map(14, &seed_to_soil));
    assert_eq!(57, apply_map(55, &seed_to_soil));
    assert_eq!(13, apply_map(13, &seed_to_soil));
    assert_eq!(51, apply_map(99, &seed_to_soil));
    assert_eq!(79, rev_apply_map(81, &seed_to_soil));
    assert_eq!(99, rev_apply_map(51, &seed_to_soil));
    let m = seed_to_soil[0];
    assert_eq!(98..100, m.src());
    assert_eq!(50..52, m.dst());
    assert_eq!(50, m.map(98));
    assert_eq!(97, m.map(97));
    assert_eq!(99, m.rev_map(51));
}

#[test]
fn cpu_signal() {
    let ops = vec![CpuOp::Noop, CpuOp::Addx(3), CpuOp::Addx(-5)];
    let regs = calc_register_values_at_cycle(&ops);
    assert_eq!(vec![1, 1, 1, 4, 4], regs);
    let long: Vec<i32> = (0..60).map(|c| if c < 30 { 2 } else { -1 }).collect();
    assert_eq!(vec![40, -60], calc_signal_strengths(&long));
    let pixels = get_display_pixels(&vec![1, 1, 1, 40]);
    assert_eq!(vec!['#', '#', '#', '.'], pixels);
}

#[test]
fn test_pad_out_and_convert_line_of_len_64() {
    let line_exact = [b'a'; 64];
    let result = pad_out_and_convert_line(&line_exact);
    assert_eq!(result, line_exact);
}

#[test]
fn test_pad_out_and_convert_line_of_len_30() {
    let line_short = [b'b'; 30];
    let mut expected = [b'b'; 64];
    expected[30..].fill(0);
    let result = pad_out_and_convert_line(&line_short);
    assert_eq!(result, expected);
}

#[test]
fn calibration_sums() {
    assert_eq!(142, calibration_sum("1abc2\npqr3stu8vwx\na1b2c3d4e5f\ntreb7uchet"));
    let spelled = "two1nine\neightwothree\nabcone2threexyz\nxtwone3four\n4nineeightseven2\nzoneight234\n7pqrstsixteen";
    assert_eq!(281, spelled_calibration_sum(spelled));
    assert_eq!(142, spelled_calibration_sum("1abc2\npqr3stu8vwx\na1b2c3d4e5f\ntreb7uchet"));
}

#[test]
fn monkey_business_score() {
    let op = MonkeyOp { operand1: Operand::Old, op: Op::Add, operand2: Operand::Num(1) };
    let test = Test { div: 2, truthy: 1, falsy: 0 };
    let counts = [101u64, 95, 7, 105];
    let monkeys: Vec<Monkey> = counts
        .iter()
        .enumerate()
        .map(|(i, &c)| Monkey { index: i, items: vec![], operation: op, test, inspect_count: c })
        .collect();
    assert_eq!(10605, calc_score(&monkeys));
    assert_eq!(101, calc_score(&monkeys[..1].iter().map(|m| Monkey { items: vec![], ..*m }).collect()));
    assert_eq!(1, calc_score(&vec![]));
}
