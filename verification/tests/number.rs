use calculator::number::{is_number, is_number_text};
use calculator::text::{chars_of, is_numeric_char, is_whitespace_char, string_of};

#[test]
fn number_texts_are_those_that_parse() {
    let samples = [
        "", "0", "1", "-1", "+1", "109", "1.", ".5", "0.5", "-.5", "+5.", ".", "-", "+", "-.", "1.5.2",
        "1e5", "1E5", "1e+5", "1e-5", "1e", "1e+", "e5", ".e5", "1.e5", ".5e-3", "1ee5", "1e5.0", "1e5e5",
        "inf", "-inf", "+inf", "INF", "Inf", "iNf", "infinity", "-Infinity", "INFINITY", "infinit", "infinityy",
        "nan", "NaN", "-nan", "+NAN", "na", "nann", " 1", "1 ", "1 2", "0x10", "1_000", "1,5", "--1", "+-1",
        "1f", "1f64", "٣", "1٣", "½", "²", "1e٣", "i", "in", "ınf", "İnf", "ſ", "-e", "007", "00.00", "1e0001",
        "123456789012345678901234567890", "1e400", "-0", "0e0", "+.0e-0", "(", ")", "*", "/", "^", "a",
    ];
    for s in samples {
        assert_eq!(is_number_text(s), s.parse::<f64>().is_ok(), "{:?}", s);
        let chars: Vec<char> = s.chars().collect();
        assert_eq!(is_number(&chars), s.parse::<f64>().is_ok(), "{:?}", s);
    }
}

#[test]
fn number_texts_over_a_small_alphabet() {
    let alphabet = ['0', '7', '.', 'e', 'E', '+', '-', 'i', 'n', 'f', 'a', 'N', ' '];
    let mut texts: Vec<String> = vec![String::new()];
    let mut from = 0;
    for _ in 0..4 {
        let upto = texts.len();
        for k in from..upto {
            for c in alphabet {
                let mut t = texts[k].clone();
                t.push(c);
                texts.push(t);
            }
        }
        from = upto;
    }
    for t in &texts {
        assert_eq!(is_number_text(t), t.parse::<f64>().is_ok(), "{:?}", t);
    }
}

#[test]
fn what_the_arithmetic_prints_is_a_number_text() {
    for x in [0.0f64, -0.0, 1.0, -1.5, 1e21, 1e-7, 1e300, f64::MAX, f64::MIN_POSITIVE, f64::INFINITY, f64::NEG_INFINITY, f64::NAN, 0.1 + 0.2] {
        assert!(is_number_text(&x.to_string()), "{}", x);
    }
}

#[test]
fn white_space_is_what_the_character_says() {
    let mut n: u32 = 0;
    while n <= 0x10FFFF {
        if let Some(c) = char::from_u32(n) {
            assert_eq!(is_whitespace_char(c), c.is_whitespace(), "{:x}", n);
        }
        n += 1;
    }
}

#[test]
fn numeric_characters_are_digits_and_the_point() {
    for c in ['0', '1', '5', '9', '.'] {
        assert!(is_numeric_char(c));
    }
    for c in ['/', ':', '-', '+', ',', 'e', ' ', '²', '٣', '(', ')'] {
        assert!(!is_numeric_char(c));
    }
}

#[test]
fn characters_and_strings_convert_both_ways() {
    let chars = chars_of("a-ü 1");
    assert_eq!(chars, vec!['a', '-', 'ü', ' ', '1']);
    assert_eq!(string_of(&chars, 0, 5), "a-ü 1");
    assert_eq!(string_of(&chars, 1, 3), "-ü");
    assert_eq!(string_of(&chars, 2, 2), "");
}
