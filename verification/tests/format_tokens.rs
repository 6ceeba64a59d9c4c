use calculator::format::{add_whitespace, format_tokens};

#[test]
fn format_none_required() {
    let expected = "1";

    let input = String::from("1");
    let actual = format_tokens(&input);

    assert_eq!(expected, actual);
}

#[test]
fn format_initial_negative() {
    let expected = "-1";

    let input = String::from(" -   1");
    let actual = format_tokens(&input);

    assert_eq!(expected, actual);
}

#[test]
fn format_3_args() {
    let expected = "-1 + 2";

    let input = String::from("-   1 +2");
    let actual = format_tokens(&input);

    assert_eq!(expected, actual);
}

#[test]
fn format_paren() {
    let expected = "( 1 )";

    let input = String::from("     (1)   ");
    let actual = format_tokens(&input);

    assert_eq!(expected, actual);
}

#[test]
fn format_paren_negative() {
    let expected = "( -1 )";

    let input = String::from("     (-1)   ");
    let actual = format_tokens(&input);

    assert_eq!(expected, actual);
}

#[test]
fn format_many() {
    let expected = "-1 + 2 * ( -3 - ( -5 ) ) ^ ( 4 )";

    let input = String::from("       -1   +  2*(-   3 -  (-5))^(     4)  ");
    let actual = format_tokens(&input);

    assert_eq!(expected, actual);
}

#[test]
fn format_many_without_trailing_blanks() {
    let input = String::from("       -1   +  2*(-   3 -  (-5))^(     4)");
    assert_eq!("-1 + 2 * ( -3 - ( -5 ) ) ^ ( 4 )", format_tokens(&input));
}

#[test]
fn format_empty_and_blank() {
    assert_eq!("", format_tokens(&String::from("")));
    assert_eq!("", format_tokens(&String::from("   \t \n ")));
}

#[test]
fn format_binary_minus_after_number_is_spaced() {
    assert_eq!("1 - 2", format_tokens(&String::from("1-2")));
    assert_eq!("( 5 - 3 )", format_tokens(&String::from("(5-3)")));
}

#[test]
fn format_decimal_point_stays_in_the_number() {
    assert_eq!("1.5 + .25", format_tokens(&String::from("1.5+.25")));
    assert_eq!("6 / 0", format_tokens(&String::from("6 / 0")));
}

#[test]
fn format_removes_every_kind_of_white_space() {
    assert_eq!("1 + 2", format_tokens(&String::from("\t1\u{a0}+\u{2003}2\r\n")));
}

#[test]
fn format_is_idempotent_on_samples() {
    for raw in ["", " ", "1", "-1", "(-1)", "1-2", "a+b", "2*(3+4)^2", ") ( - -", "1 . 5", "--1", "(-(-1))", "1 -", "- 1 -"] {
        let once = format_tokens(&String::from(raw));
        let twice = format_tokens(&once);
        assert_eq!(once, twice);
    }
}

#[test]
fn format_keeps_the_characters() {
    for raw in ["", " 1 + 2 ", "(-1)*3", "a b\tc", "2 ^ ( 3 ) "] {
        let spaced = format_tokens(&String::from(raw));
        let left: String = spaced.chars().filter(|c| !c.is_whitespace()).collect();
        let right: String = raw.chars().filter(|c| !c.is_whitespace()).collect();
        assert_eq!(left, right);
    }
}

#[test]
fn add_whitespace_keeps_the_space_at_the_end() {
    assert_eq!("( 1 ) ", add_whitespace(String::from("(1)")));
    assert_eq!("-1 + 2", add_whitespace(String::from("-1+2")));
    assert_eq!("( -", add_whitespace(String::from("(-")));
    assert_eq!("", add_whitespace(String::from("")));
}
