use puzzle_solvers::crate_stacks::{apply_moves_to_stacks, parse_moves, parse_stacks, Move};
use puzzle_solvers::signal::{get_signal_strengths, Op};

fn example() -> (Vec<Vec<char>>, Vec<Move>) {
    let stacks = vec![vec!['Z', 'N'], vec!['M', 'C', 'D'], vec!['P']];
    let moves = vec![
        Move { count: 1, origin: 1, destination: 0 },
        Move { count: 3, origin: 0, destination: 2 },
        Move { count: 2, origin: 1, destination: 0 },
        Move { count: 1, origin: 0, destination: 1 },
    ];
    (stacks, moves)
}

fn tops(stacks: &[Vec<char>]) -> String {
    stacks.iter().filter_map(|s| s.last()).collect()
}

#[test]
fn crane_one_at_a_time() {
    let (stacks, moves) = example();
    let after = apply_moves_to_stacks(&stacks, &moves, true);
    assert_eq!("CMZ", tops(&after));
    assert_eq!(vec![vec!['C'], vec!['M'], vec!['P', 'D', 'N', 'Z']], after);
}

#[test]
fn crane_several_at_once() {
    let (stacks, moves) = example();
    assert_eq!("MCD", tops(&apply_moves_to_stacks(&stacks, &moves, false)));
}

#[test]
fn signal_strengths_while_running() {
    let mut ops = vec![];
    for _ in 0..10 {
        ops.push(Op::Addx(1));
    }
    for _ in 0..50 {
        ops.push(Op::Noop);
    }
    // cycle 20 is the 2nd cycle of the 10th addx: register 1 + 9; cycle 60 sees 11
    assert_eq!(vec![200, 660], get_signal_strengths(&ops));
}

#[test]
fn drawing_and_moves_parsing() {
    let drawing = "    [D]    \n[N] [C]    \n[Z] [M] [P]\n 1   2   3 ";
    let moves_text = "move 1 from 2 to 1\nmove 3 from 1 to 3\nmove 2 from 2 to 1\nmove 1 from 1 to 2\n";
    let (stacks, moves) = example();
    assert_eq!(Some(stacks), parse_stacks(drawing.to_string()));
    assert_eq!(moves, parse_moves(moves_text.to_string()));
    assert_eq!(None, parse_stacks("[A] [B]\n 1 ".to_string()));
    assert_eq!(Vec::<Move>::new(), parse_moves("move 0 from 0 to 1\nmove x".to_string()));
}
