use puzzle_solvers::hill;
use puzzle_solvers::sand::{self, find_lowest_point, parse_positions, Position};

#[test]
fn neighbours_inside_the_map() {
    let p = hill::new_pos(0, 0);
    assert_eq!([None, None, Some(hill::new_pos(0, 1)), Some(hill::new_pos(1, 0))], p.get_neighbours(&5, &8));
    let q = hill::new_pos(7, 4);
    assert_eq!([Some(hill::new_pos(7, 3)), Some(hill::new_pos(6, 4)), None, None], q.get_neighbours(&5, &8));
}

#[test]
fn rock_lines() {
    let a = sand::new_pos(498, 4);
    let b = sand::new_pos(498, 6);
    assert_eq!(vec![sand::new_pos(498, 4), sand::new_pos(498, 5), sand::new_pos(498, 6)], b.create_line(&a));
    let c = sand::new_pos(496, 6);
    assert_eq!(vec![sand::new_pos(496, 6), sand::new_pos(497, 6), sand::new_pos(498, 6)], b.create_line(&c));
    assert_eq!(vec![a], a.create_line(&a));
}

#[test]
fn grain_falls() {
    let floor: Vec<Position> = (494..=506).map(|x| sand::new_pos(x, 9)).collect();
    let mut grain = sand::new_pos(500, 7);
    assert!(grain.can_move_down(&floor));
    grain.move_down(&floor);
    assert_eq!(sand::new_pos(500, 8), grain);
    assert!(!grain.can_move_down(&floor));
    grain.move_down(&floor);
    assert_eq!(sand::new_pos(500, 8), grain);
    let mut blocked = floor.clone();
    blocked.push(sand::new_pos(500, 8));
    let mut g = sand::new_pos(500, 7);
    g.move_down(&blocked);
    assert_eq!(sand::new_pos(499, 8), g);
    assert_eq!(9, find_lowest_point(&floor));
}

#[test]
fn rock_scan_parsing() {
    let scan = "498,4 -> 498,6 -> 496,6\n503,4 -> 502,4 -> 502,9 -> 494,9";
    let mut cells = parse_positions(scan).unwrap();
    cells.sort_by_key(|p| (p.x, p.y));
    assert_eq!(20, cells.len());
    assert!(cells.contains(&sand::new_pos(498, 5)));
    assert!(cells.contains(&sand::new_pos(494, 9)));
    assert!(!cells.contains(&sand::new_pos(500, 8)));
    assert_eq!(9, find_lowest_point(&cells));
    assert_eq!(None, parse_positions("1,2 -> 3"));
    assert_eq!(Some(vec![sand::new_pos(7, 7)]), parse_positions("7,7 -> 7,7"));
}
