use conway_piston::text::{
    append_decimal, chars_of, comes_before, contains, parse_usize, same_text,
};

fn chars(text: &str) -> Vec<char> {
    text.chars().collect()
}

#[test]
fn chars_of_gives_the_characters_in_order() {
    assert_eq!(vec!['a', '\u{e9}', ' ', '\u{4e2d}', '\n'], chars_of("a\u{e9} \u{4e2d}\n"));
    assert_eq!(Vec::<char>::new(), chars_of(""));
}

#[test]
fn same_text_compares_all_characters() {
    assert!(same_text("", ""));
    assert!(same_text("pause", "pause"));
    assert!(!same_text("pause", "pausE"));
    assert!(!same_text("pause", "paus"));
    assert!(!same_text("", "x"));
}

#[test]
fn numbers_are_read_in_base_ten() {
    assert_eq!(Some(0), parse_usize(&chars("0")));
    assert_eq!(Some(7), parse_usize(&chars("7")));
    assert_eq!(Some(200), parse_usize(&chars("200")));
    assert_eq!(Some(200), parse_usize(&chars("+200")));
    assert_eq!(Some(12), parse_usize(&chars("0012")));
    assert_eq!(Some(usize::MAX), parse_usize(&chars(&usize::MAX.to_string())));
}

#[test]
fn what_is_no_number_is_refused() {
    assert_eq!(None, parse_usize(&chars("")));
    assert_eq!(None, parse_usize(&chars("+")));
    assert_eq!(None, parse_usize(&chars("-1")));
    assert_eq!(None, parse_usize(&chars("++1")));
    assert_eq!(None, parse_usize(&chars("1+")));
    assert_eq!(None, parse_usize(&chars("12a")));
    assert_eq!(None, parse_usize(&chars(" 12")));
    assert_eq!(None, parse_usize(&chars("1_000")));
    assert_eq!(None, parse_usize(&chars("\u{661}")));
}

#[test]
fn numbers_that_do_not_fit_are_refused() {
    let beyond = format!("{}", usize::MAX as u128 + 1);
    assert_eq!(None, parse_usize(&chars(&beyond)));
    let tenfold = format!("{}0", usize::MAX);
    assert_eq!(None, parse_usize(&chars(&tenfold)));
    assert_eq!(None, parse_usize(&chars("99999999999999999999999999999999999999999")));
}

#[test]
fn numbers_are_read_as_the_standard_library_reads_them() {
    for text in ["0", "42", "+42", "-42", "", "+", "4 2", "18446744073709551615",
        "18446744073709551616", "4294967295", "4294967296", "007", "1e3", "0x10"]
    {
        assert_eq!(text.parse::<usize>().ok(), parse_usize(&chars(text)));
    }
}

#[test]
fn numbers_are_written_in_base_ten() {
    for (number, written) in
        [(0usize, "0"), (7, "7"), (10, "10"), (109, "109"), (1000, "1000"), (65535, "65535")]
    {
        let mut text = String::new();
        append_decimal(&mut text, number);
        assert_eq!(written, text);
    }
    let mut text = String::from("save");
    append_decimal(&mut text, usize::MAX);
    assert_eq!(format!("save{}", usize::MAX), text);
}

#[test]
fn contains_finds_the_needle_anywhere() {
    assert!(contains(&chars("save1.seed"), &chars("save")));
    assert!(contains(&chars("save1.seed"), &chars(".seed")));
    assert!(contains(&chars("save1.seed"), &chars("1")));
    assert!(contains(&chars("save1.seed"), &chars("")));
    assert!(contains(&chars(""), &chars("")));
    assert!(contains(&chars("aab"), &chars("ab")));
    assert!(!contains(&chars("save1.seed"), &chars("seeds")));
    assert!(!contains(&chars("sav"), &chars("save")));
    assert!(!contains(&chars(""), &chars("a")));
    assert!(!contains(&chars("abab"), &chars("bb")));
}

#[test]
fn comes_before_is_the_order_of_strings() {
    let texts = ["", "a", "ab", "b", "save1.seed", "save10.seed", "save2.seed", "save9.seed",
        "Save", "\u{e9}", "z", "save"];
    for a in texts {
        for b in texts {
            assert_eq!(a <= b, comes_before(&chars(a), &chars(b)));
        }
    }
}
