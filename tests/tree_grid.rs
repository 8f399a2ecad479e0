use puzzle_solvers::tree_grid::{
    calc_sightlines, calc_tree_scenic_score, find_max_scenic_score, find_visible_tree_count,
    map_input_to_matrix,
};

static TEST_INPUT: &str = "30373
25512
65332
33549
35390";

static TEST_INPUT2: &str = "3037330373
2451225512
6533265332
3354933549
3539035390";

static TEST_INPUT3: &str = "0123456789
0210000210
2090000002
9876543210";

#[test]
fn test() {
    let map = map_input_to_matrix(&TEST_INPUT);
    assert_eq!(21, find_visible_tree_count(&map));
}

#[test]
fn test_scenic_pick() {
    let map = map_input_to_matrix(&TEST_INPUT);
    assert_eq!(8, find_max_scenic_score(&map));
}

#[test]
fn main_test2() {
    let map = map_input_to_matrix(&TEST_INPUT2);
    assert_eq!(37, find_visible_tree_count(&map));
}

#[test]
fn main_test3() {
    let map = map_input_to_matrix(&TEST_INPUT3);
    assert_eq!(28, find_visible_tree_count(&map));
}

#[test]
fn parsing_and_sightlines() {
    let map = map_input_to_matrix(&TEST_INPUT);
    assert_eq!(vec![3, 0, 3, 7, 3], map[0]);
    assert_eq!(5, map.len());
    let sight = calc_sightlines(&map);
    assert_eq!(3, sight.len());
    // the tree at (1, 1) has height 5: north 0, east max(5, 1, 2), south max(5, 3, 3), west 2
    assert_eq!([0, 5, 5, 2], sight[0][0]);
}

#[test]
fn scenic_scores() {
    let map = map_input_to_matrix(&TEST_INPUT);
    assert_eq!(4, calc_tree_scenic_score(&map, 1, 2));
    assert_eq!(8, calc_tree_scenic_score(&map, 3, 2));
    assert_eq!(0, calc_tree_scenic_score(&map, 0, 0));
}
