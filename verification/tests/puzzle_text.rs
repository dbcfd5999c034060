use flip_solver::parsing::{
    is_puzzle_string, is_well_formed, parse_puzzle, puzzle_chars, string_to_level_and_constraints,
    string_to_puzzles,
};

#[test]
fn a_puzzle_string_gives_margins_level_and_grid() {
    let (nr, sr, sc, br, bc, level, state) =
        string_to_level_and_constraints("31010-11203-10110-11211-11101 1");
    assert_eq!(nr, 0);
    assert_eq!(sr, [5, 7, 3, 6, 4]);
    assert_eq!(sc, [7, 4, 6, 3, 5]);
    assert_eq!(br, [2, 1, 2, 0, 1]);
    assert_eq!(bc, [0, 1, 1, 2, 2]);
    assert_eq!(level, 1);
    assert_eq!(state, 919573188941137);
}

#[test]
fn separators_are_optional() {
    let with = string_to_level_and_constraints("31010-11203-10110-11211-11101 1");
    assert_eq!(string_to_level_and_constraints("3101011203101101121111101 1"), with);
    assert_eq!(string_to_level_and_constraints("31010112031011011211111011"), with);
    assert_eq!(string_to_level_and_constraints("31010 11203 10110 11211 11101 1\r"), with);
    assert_eq!(string_to_level_and_constraints("3-1-0-1-0 1 1 2 0 3 10110 11211 11101-1"), with);
}

#[test]
fn the_level_is_the_last_digit() {
    for level in 1..9usize {
        let s = format!("00000-00000-00000-00000-00000 {}", level);
        let (_, sr, sc, br, bc, got, state) = string_to_level_and_constraints(&s);
        assert_eq!(got, level);
        assert_eq!((sr, sc), ([0; 5], [0; 5]));
        assert_eq!((br, bc), ([5; 5], [5; 5]));
        assert_eq!(state, 0);
    }
    let (_, _, _, _, _, level, _) = string_to_level_and_constraints("0000000000000000000000003");
    assert_eq!(level, 3);
}

#[test]
fn a_full_grid_of_threes() {
    let (_, sr, sc, br, bc, level, state) =
        string_to_level_and_constraints("33333-33333-33333-33333-33333 8");
    assert_eq!((sr, sc), ([15; 5], [15; 5]));
    assert_eq!((br, bc), ([0; 5], [0; 5]));
    assert_eq!(level, 8);
    assert_eq!(state, (1u64 << 50) - 1);
}

#[test]
fn separators_are_taken_out() {
    assert_eq!(puzzle_chars("3-1 0\r1"), vec!['3', '1', '0', '1']);
    assert_eq!(puzzle_chars(""), Vec::<char>::new());
    assert_eq!(puzzle_chars("- \r"), Vec::<char>::new());
    assert_eq!(puzzle_chars("a\nb"), vec!['a', '\n', 'b']);
}

#[test]
fn well_formed_strings_are_told_apart() {
    assert!(is_puzzle_string("31010-11203-10110-11211-11101 1"));
    assert!(is_puzzle_string("3101011203101101121111101"));
    assert!(is_puzzle_string("31010-11203-10110-11211-11101 9"));
    assert!(!is_puzzle_string(""));
    assert!(!is_puzzle_string("31010-11203-10110-11211-1110"));
    assert!(!is_puzzle_string("31010-11203-10110-11211-11104 1"));
    assert!(!is_puzzle_string("31010-11203-10110-11211-11101 x"));
    assert!(!is_puzzle_string("3101a-11203-10110-11211-11101 1"));
    assert!(!is_puzzle_string("31010_11203_10110_11211_11101 1"));
    let chars: Vec<char> = "3101011203101101121111101".chars().collect();
    assert!(is_well_formed(&chars));
    assert!(!is_well_formed(&chars[0..24].to_vec()));
    assert_eq!(parse_puzzle(&chars).5, 1);
}

#[test]
fn a_text_gives_one_puzzle_per_line() {
    let text = "31010-11203-10110-11211-11101 1\n00000-00000-00000-00000-00000 5\r\n33333-33333-33333-33333-33333 8";
    let puzzles = string_to_puzzles(text);
    assert_eq!(puzzles.len(), 3);
    assert_eq!(
        puzzles[0],
        (1, [5, 7, 3, 6, 4], [7, 4, 6, 3, 5], [2, 1, 2, 0, 1], [0, 1, 1, 2, 2], 1, 919573188941137)
    );
    assert_eq!(puzzles[1], (2, [0; 5], [0; 5], [5; 5], [5; 5], 5, 0));
    assert_eq!(puzzles[2], (3, [15; 5], [15; 5], [0; 5], [0; 5], 8, (1u64 << 50) - 1));
    let one = string_to_puzzles("31010-11203-10110-11211-11101 1");
    assert_eq!(one, vec![puzzles[0]]);
}
