use calculator::calc::calculate;
use calculator::format::format_tokens;
use calculator::lexer::parse_tokens;
use calculator::pipeline::evaluate_line;
use calculator::token::TokenType;

fn arith(op: TokenType, a: &str, b: &str) -> String {
    let a: f64 = a.parse().unwrap();
    let b: f64 = b.parse().unwrap();
    let r = match op {
        TokenType::Addition => a + b,
        TokenType::Subtract => a - b,
        TokenType::Multiply => a * b,
        TokenType::Division => a / b,
        TokenType::Exponent => a.powf(b),
        _ => unreachable!(),
    };
    r.to_string()
}

struct Dice(u64);

impl Dice {
    fn roll(&mut self, sides: u64) -> u64 {
        self.0 = self.0.wrapping_mul(6364136223846793005).wrapping_add(1442695040888963407);
        (self.0 >> 33) % sides
    }

    fn blanks(&mut self) -> String {
        " ".repeat(self.roll(3) as usize)
    }
}

// An expression as text, and its value by the usual reading: brackets
// first, then powers, then products and quotients, then sums and
// differences, each from left to right.
fn atom(dice: &mut Dice, depth: u32) -> (String, f64) {
    let pick = dice.roll(if depth == 0 { 3 } else { 5 });
    if pick == 0 {
        let n = dice.roll(10);
        (format!("{}", n), n as f64)
    } else if pick == 1 {
        let n = dice.roll(40);
        (format!("{}.{}", n / 4, (n % 4) * 25), (n / 4) as f64 + ((n % 4) * 25) as f64 / 100.0)
    } else if pick == 2 {
        let n = dice.roll(9) + 1;
        (format!("({}-{})", dice.blanks(), n), -(n as f64))
    } else {
        let (text, value) = sum(dice, depth - 1);
        (format!("({}{}{})", dice.blanks(), text, dice.blanks()), value)
    }
}

fn power(dice: &mut Dice, depth: u32) -> (String, f64) {
    let (mut text, mut value) = atom(dice, depth);
    while dice.roll(5) == 0 {
        let (t, v) = atom(dice, depth);
        text = format!("{}{}^{}{}", text, dice.blanks(), dice.blanks(), t);
        value = value.powf(v);
    }
    (text, value)
}

fn product(dice: &mut Dice, depth: u32) -> (String, f64) {
    let (mut text, mut value) = power(dice, depth);
    while dice.roll(3) == 0 {
        let (t, v) = power(dice, depth);
        if dice.roll(2) == 0 {
            text = format!("{}{}*{}{}", text, dice.blanks(), dice.blanks(), t);
            value = value * v;
        } else {
            text = format!("{}{}/{}{}", text, dice.blanks(), dice.blanks(), t);
            value = value / v;
        }
    }
    (text, value)
}

fn sum(dice: &mut Dice, depth: u32) -> (String, f64) {
    let (mut text, mut value) = product(dice, depth);
    while dice.roll(3) == 0 {
        let (t, v) = product(dice, depth);
        if dice.roll(2) == 0 {
            text = format!("{}{}+{}{}", text, dice.blanks(), dice.blanks(), t);
            value = value + v;
        } else {
            text = format!("{}{}-{}{}", text, dice.blanks(), dice.blanks(), t);
            value = value - v;
        }
    }
    (text, value)
}

fn same(a: f64, b: f64) -> bool {
    a == b || (a.is_nan() && b.is_nan())
}

#[test]
fn well_formed_expressions_have_the_value_of_the_usual_reading() {
    let mut dice = Dice(2024);
    let mut longest = 0;
    for _ in 0..2000 {
        let (text, expected) = sum(&mut dice, 3);
        longest = longest.max(text.len());
        let spaced = format_tokens(&text);
        let tokens = parse_tokens(&spaced);
        let actual: f64 = calculate(tokens, &arith).unwrap().parse().unwrap();
        assert!(same(expected, actual), "{} = {} but got {}", text, expected, actual);
    }
    assert!(longest > 40);
}

#[test]
fn a_line_gives_its_spaced_form_and_its_value() {
    let out = evaluate_line(&String::from("       -1   +  2*(-   3 -  (-5))^(     4)\n"), &arith);
    assert_eq!(out.formatted, "-1 + 2 * ( -3 - ( -5 ) ) ^ ( 4 )");
    assert_eq!(out.value, Ok(String::from("31")));
    assert_eq!(out.unknown.len(), 0);
    let out = evaluate_line(&String::from("1 + x"), &arith);
    assert_eq!(out.formatted, "1 + x");
    assert_eq!(out.unknown, vec![String::from("x")]);
    assert_eq!(out.value, Ok(String::from("1")));
}

#[test]
fn a_line_gives_the_same_each_time() {
    for raw in ["2 ^ 0.5 - 1 / 3", "1 + x", "", "( )", "6 / 0"] {
        let first = evaluate_line(&String::from(raw), &arith);
        let second = evaluate_line(&String::from(raw), &arith);
        assert_eq!(first.formatted, second.formatted);
        assert_eq!(first.unknown, second.unknown);
        assert_eq!(first.value, second.value);
    }
}

#[test]
fn a_blank_line_has_no_value() {
    for raw in ["", " ", "\n", " \t \r\n"] {
        let out = evaluate_line(&String::from(raw), &arith);
        assert_eq!(out.formatted, "");
        assert_eq!(out.unknown.len(), 0);
        assert_eq!(out.value, Err(calculator::calc::CalcError::NoValue));
    }
}
