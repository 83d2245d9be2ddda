use conway_piston::save::{
    all_same, bool_to_str, data_to_string, is_save_entry, is_valid, mark, next_save_name, parse,
    parse_marked, str_to_bool, ParseError,
};

fn grid(lines: &[&str]) -> Vec<Vec<bool>> {
    lines.iter().map(|line| line.chars().map(|c| c == 'O').collect()).collect()
}

fn names(entries: &[&str]) -> Vec<String> {
    entries.iter().map(|entry| entry.to_string()).collect()
}

#[test]
fn all_same_test() {
    assert!(all_same(&vec![20, 20, 20, 20, 20]));
    assert!(!all_same(&vec![21, 20, 20, 20]));
    assert!(all_same(&Vec::new()));
}

#[test]
fn all_same_sees_a_difference_anywhere() {
    assert!(all_same(&vec![7]));
    assert!(!all_same(&vec![20, 20, 20, 21]));
    assert!(!all_same(&vec![20, 21, 20]));
    assert!(!all_same(&vec![1, 2, 1, 2]));
}

#[test]
fn cells_are_written_as_o_and_dot() {
    assert_eq!("O", bool_to_str(&true));
    assert_eq!(".", bool_to_str(&false));
}

#[test]
fn cells_are_read_from_o_and_dot() {
    assert_eq!(Some(true), str_to_bool("O"));
    assert_eq!(Some(false), str_to_bool("."));
    assert_eq!(None, str_to_bool(""));
    assert_eq!(None, str_to_bool("o"));
    assert_eq!(None, str_to_bool("0"));
    assert_eq!(None, str_to_bool("OO"));
    assert_eq!(None, str_to_bool(".."));
    assert_eq!(None, str_to_bool(" O"));
}

#[test]
fn rows_of_one_length_are_valid() {
    assert!(is_valid(&grid(&["O.O", "...", "OOO"])));
    assert!(is_valid(&Vec::new()));
    assert!(is_valid(&vec![Vec::new(), Vec::new()]));
    assert!(!is_valid(&grid(&["O.O", "..", "OOO"])));
    assert!(!is_valid(&grid(&["O.O", "...", "OOOO"])));
}

#[test]
fn data_is_written_row_by_row() {
    assert_eq!("O . O\n. . .\nO O O", data_to_string(&grid(&["O.O", "...", "OOO"])));
    assert_eq!("O", data_to_string(&grid(&["O"])));
    assert_eq!(". O", data_to_string(&grid(&[".O"])));
    assert_eq!(".\nO", data_to_string(&grid(&[".", "O"])));
}

#[test]
fn data_without_cells_is_written_as_empty_lines() {
    assert_eq!("", data_to_string(&Vec::new()));
    assert_eq!("", data_to_string(&vec![Vec::new()]));
    assert_eq!("\n", data_to_string(&vec![Vec::new(), Vec::new()]));
}

#[test]
fn text_is_parsed_row_by_row() {
    assert_eq!(Ok(grid(&["O.O", "...", "OOO"])), parse("O . O\n. . .\nO O O"));
    assert_eq!(Ok(grid(&["O.O", "...", "OOO"])), parse("O . O\n. . .\nO O O\n"));
    assert_eq!(Ok(grid(&["O"])), parse("O"));
    assert_eq!(Ok(Vec::new()), parse(""));
}

#[test]
fn cells_are_separated_by_any_whitespace() {
    assert_eq!(Ok(grid(&["O.", ".O"])), parse("  O\t.  \r\n.\u{a0}O\r\n"));
    assert_eq!(Ok(grid(&["O.", ".O"])), parse("O\u{3000}.\n\u{2003}. O \u{b}"));
}

#[test]
fn mark_tells_whitespace_from_other_characters() {
    assert_eq!(
        vec![('O', false), (' ', true), ('.', false), ('\n', true), ('\u{a0}', true), ('x', false)],
        mark("O .\n\u{a0}x")
    );
    assert_eq!(Vec::<(char, bool)>::new(), mark(""));
}

#[test]
fn marked_text_is_parsed_by_its_marks() {
    let row = [('O', false), ('x', true), ('.', false), (' ', true), ('O', false)];
    assert_eq!(Ok(grid(&["O.O"])), parse_marked(&row));
    let unmarked_blank = [('O', false), (' ', false), ('.', false)];
    assert_eq!(Err(ParseError::InvalidCell), parse_marked(&unmarked_blank));
    let lines = [('O', false), ('\n', true), ('.', false), ('\n', false), ('O', false)];
    assert_eq!(Ok(grid(&["O", ".", "O"])), parse_marked(&lines));
    let uneven = [('O', false), ('\n', true), ('.', false), (' ', true), ('O', false)];
    assert_eq!(Err(ParseError::UnevenRows), parse_marked(&uneven));
    assert_eq!(Ok(Vec::new()), parse_marked(&[]));
}

#[test]
fn word_that_is_no_cell_is_an_error() {
    assert_eq!(Err(ParseError::InvalidCell), parse("O . O\n. x .\nO O O"));
    assert_eq!(Err(ParseError::InvalidCell), parse("O.O\n...\nOOO"));
    assert_eq!(Err(ParseError::InvalidCell), parse("O . 0"));
    assert_eq!(Err(ParseError::InvalidCell), parse("O\n. .\n,"));
}

#[test]
fn rows_of_different_lengths_are_an_error() {
    assert_eq!(Err(ParseError::UnevenRows), parse("O . O\n. .\nO O O"));
    assert_eq!(Err(ParseError::UnevenRows), parse("O .\n\n. O"));
    assert_eq!(Err(ParseError::UnevenRows), parse("O .\n. O\n\n"));
}

#[test]
fn empty_lines_are_empty_rows() {
    assert_eq!(Ok(vec![Vec::new(), Vec::new()]), parse("\n\n"));
    assert_eq!(Ok(vec![Vec::new(), Vec::new()]), parse(" \n\t"));
}

#[test]
fn what_is_written_is_read_back() {
    let data: Vec<Vec<bool>> =
        (0..9).map(|y| (0..13).map(|x| (x * y + x) % 3 == 0).collect()).collect();
    assert_eq!(Ok(data.clone()), parse(&data_to_string(&data)));
}

#[test]
fn save_entries_hold_stem_and_extension() {
    assert!(is_save_entry("save1.seed"));
    assert!(is_save_entry("save.seed"));
    assert!(is_save_entry("old.seed.save"));
    assert!(is_save_entry("my_saves_12.seeds"));
    assert!(!is_save_entry("save1.see"));
    assert!(!is_save_entry("sav1.seed"));
    assert!(!is_save_entry("Save1.seed"));
    assert!(!is_save_entry("save1seed"));
    assert!(!is_save_entry(""));
}

#[test]
fn first_save_is_number_one() {
    assert_eq!(Some("save1.seed".to_string()), next_save_name(&Vec::new()));
}

#[test]
fn next_save_counts_on_from_the_latest() {
    assert_eq!(Some("save2.seed".to_string()), next_save_name(&names(&["save1.seed"])));
    assert_eq!(
        Some("save4.seed".to_string()),
        next_save_name(&names(&["save2.seed", "save3.seed", "save1.seed"]))
    );
    assert_eq!(Some("save1.seed".to_string()), next_save_name(&names(&["save0.seed"])));
    assert_eq!(Some("save1000.seed".to_string()), next_save_name(&names(&["save999.seed"])));
    assert_eq!(Some("save8.seed".to_string()), next_save_name(&names(&["save+7.seed"])));
}

#[test]
fn latest_save_is_the_last_in_the_order_of_strings() {
    assert_eq!(
        Some("save10.seed".to_string()),
        next_save_name(&names(&["save9.seed", "save10.seed"]))
    );
    assert_eq!(
        Some("save3.seed".to_string()),
        next_save_name(&names(&["save10.seed", "save2.seed", "save1.seed"]))
    );
    assert_eq!(
        Some("save13.seed".to_string()),
        next_save_name(&names(&["save12.seed", "save1.seed", "save11.seed"]))
    );
}

#[test]
fn save_name_without_a_number_gives_no_next_name() {
    assert_eq!(None, next_save_name(&names(&["save.seed"])));
    assert_eq!(None, next_save_name(&names(&["save1.seed", "savex.seed"])));
    assert_eq!(None, next_save_name(&names(&["seed"])));
    assert_eq!(None, next_save_name(&names(&["save-1.seed"])));
    assert_eq!(None, next_save_name(&names(&["save1.seed", "saves.seed.save"])));
}

#[test]
fn number_part_is_cut_by_bytes() {
    assert_eq!(Some("save13.seed".to_string()), next_save_name(&names(&["abcd12wxyzv"])));
    assert_eq!(None, next_save_name(&names(&["sav\u{e9}1.seed"])));
    assert_eq!(None, next_save_name(&names(&["\u{e9}ave1.seed"])));
    assert_eq!(Some("save13.seed".to_string()), next_save_name(&names(&["save12\u{e9}xyz"])));
}

#[test]
fn largest_number_has_no_next() {
    let largest = format!("save{}.seed", usize::MAX);
    assert_eq!(None, next_save_name(&vec![largest]));
    let beyond = format!("save{}0.seed", usize::MAX);
    assert_eq!(None, next_save_name(&vec![beyond]));
    let below = format!("save{}.seed", usize::MAX - 1);
    assert_eq!(Some(format!("save{}.seed", usize::MAX)), next_save_name(&vec![below]));
}
