use puzzle_solvers::folders::{
    calc_folder_total_size, find_min_folder_to_delete, find_sum_of_small_folder_sizes,
    parse_terminal_output, Folder,
};

const TEST_INPUT: &str = "$ cd /
$ ls
dir a
14848514 b.txt
8504156 c.dat
dir d
$ cd a
$ ls
dir e
29116 f
2557 g
62596 h.lst
$ cd e
$ ls
584 i
$ cd ..
$ cd ..
$ cd d
$ ls
4060174 j
8033020 d.log
5626152 d.ext
7214296 k";

fn has(folders: &[Folder], name: &str, check: impl Fn(&Folder) -> bool) -> bool {
    folders.iter().any(|folder| folder.name == name.as_bytes() && check(folder))
}

#[test]
fn test_parsing() {
    let folders = parse_terminal_output(TEST_INPUT).unwrap();
    assert!(has(&folders, "e", |f| f.files_size == 584));
    assert!(has(&folders, "a", |f| f.files_size == (94853 - 584) as u128));
    assert!(has(&folders, "d", |f| f.files_size == 24933642));
    assert!(has(&folders, "/", |f| f.files_size == (48381165 - 24933642 - 94853) as u128));
}

#[test]
fn test_folder_total_size_calc() {
    let folders = parse_terminal_output(TEST_INPUT).unwrap();
    assert!(has(&folders, "e", |f| f.total_size == 584));
    assert!(has(&folders, "a", |f| f.total_size == 94853));
    assert!(has(&folders, "d", |f| f.total_size == 24933642));
    assert!(has(&folders, "/", |f| f.total_size == 48381165));
}

#[test]
fn test_find_folder_for_deletion() {
    let folders = parse_terminal_output(TEST_INPUT);
    assert!(folders.is_some());
    let folders = folders.unwrap();
    let min = find_min_folder_to_delete(&folders).expect("Could not find a folder of size at least 30000000");
    assert_eq!(24933642, min);
}

#[test]
fn small_folders_example() {
    let folders = parse_terminal_output(TEST_INPUT).unwrap();
    assert_eq!(find_sum_of_small_folder_sizes(&folders, 0, 100000), 95437);
}

#[test]
fn session_errors_and_recomputation() {
    assert!(parse_terminal_output("$ cd /\n$ l").is_none());
    let mut folders = parse_terminal_output(TEST_INPUT).unwrap();
    for f in folders.iter_mut() {
        f.total_size = 0;
    }
    calc_folder_total_size(&mut folders, 0);
    assert_eq!(48381165, folders[0].total_size);
}
