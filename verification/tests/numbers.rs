use turing::decimal::Decimal;
use turing::digit::Digit;
use turing::integer::{Int, Order};
use turing::tape::{next_line, parse_decimal, to_char_radix};

fn number(text: &str) -> Int {
    Int::from_text(text).unwrap()
}

fn shown(n: &Int) -> String {
    n.to_text()
}

fn decimal(text: &str) -> Decimal {
    Decimal::from_text(text).unwrap()
}

fn strings(cells: &[&str]) -> Vec<String> {
    cells.iter().map(|s| s.to_string()).collect()
}

#[test]
fn digits_and_numbers() {
    assert_eq!(Digit::from_usize(7), Some(Digit::Seven));
    assert_eq!(Digit::from_usize(10), None);
    assert_eq!(Digit::from_char('4'), Some(Digit::Four));
    assert_eq!(Digit::from_char('x'), None);
    assert_eq!(Digit::Nine.to_usize(), 9);
    assert_eq!(Digit::Three.to_char(), '3');
    assert_eq!(Digit::new_unchecked(0), Digit::Zero);
}

#[test]
fn numbers_as_texts() {
    assert_eq!(number("1203").0, vec![Digit::Three, Digit::Zero, Digit::Two, Digit::One]);
    assert_eq!(number("007").0, vec![Digit::Seven, Digit::Zero, Digit::Zero]);
    assert!(number("").0.is_empty());
    assert!(Int::from_text("12a").is_none());
    assert!(Int::from_text("-1").is_none());
    assert_eq!(number("1203").to_text(), "1203");
    assert_eq!(number("007").to_text(), "007");
    assert_eq!(Int::zero().to_text(), "0");
    assert_eq!(decimal("0.125").0, vec![Digit::Five, Digit::Two, Digit::One]);
    assert!(decimal("0.").0.is_empty());
    assert!(Decimal::from_text("1.5").is_none());
    assert!(Decimal::from_text("0,5").is_none());
    assert!(Decimal::from_text("0").is_none());
    assert!(Decimal::from_text("0.1x").is_none());
    assert_eq!(decimal("0.0500").to_text(), "0.0500");
}

#[test]
fn digit_arithmetic() {
    assert_eq!(Digit::Seven.carrying_add(Digit::Eight, true), (Digit::Six, true));
    assert_eq!(Digit::Two.carrying_add(Digit::Three, false), (Digit::Five, false));
    assert_eq!(Digit::Nine.carrying_mul(Digit::Nine, Digit::Eight), (Digit::Nine, Digit::Eight));
    assert_eq!(Digit::Zero.carrying_mul(Digit::Nine, Digit::Four), (Digit::Four, Digit::Zero));
    assert_eq!(Digit::Three.carrying_sub(Digit::Five), (Digit::Eight, true));
    assert_eq!(Digit::Five.carrying_sub(Digit::Five), (Digit::Zero, false));
    let mut d = Digit::Four;
    d.increment();
    assert_eq!(d, Digit::Five);
    assert!(!d.wrapping_decrement());
    assert_eq!(d, Digit::Four);
    let mut zero = Digit::Zero;
    assert!(zero.wrapping_decrement());
    assert_eq!(zero, Digit::Nine);
}

#[test]
fn integers_from_machine_numbers() {
    assert!(Int::zero().0.is_empty());
    assert_eq!(Int::one().0, vec![Digit::One]);
    assert_eq!(shown(&Int::from_usize(0)), "0");
    assert!(Int::from_usize(0).0.is_empty());
    assert_eq!(shown(&Int::from_usize(1200345)), "1200345");
    assert_eq!(Int::from_usize(120).digits(), &[Digit::Zero, Digit::Two, Digit::One]);
    assert_eq!(shown(&Int::from_hex_digit('7')), "7");
    assert_eq!(shown(&Int::from_hex_digit('c')), "12");
    assert_eq!(shown(&Int::from_hex_digit('F')), "15");
    assert_eq!(Int::from_usize(7).times_ten().0, vec![Digit::Zero, Digit::Seven]);
    assert_eq!(Int::zero().times_ten().0, vec![Digit::Zero]);
}

#[test]
fn integer_sums_and_differences() {
    assert_eq!(shown(&number("999").add(&number("1"))), "1000");
    assert_eq!(shown(&number("1").add(&number("999"))), "1000");
    assert_eq!(shown(&number("123456789123456789123456789").add(&number("987654321987654321"))), "123456790111111111111111110");
    assert_eq!(shown(&Int::zero().add(&Int::zero())), "0");
    assert_eq!(shown(&number("1000").sub(&number("1"))), "999");
    assert_eq!(shown(&number("1000").sub(&number("1000"))), "0");
    assert!(number("1000").sub(&number("1000")).0.is_empty());
    assert_eq!(shown(&number("123456790111111111111111110").sub(&number("987654321987654321"))), "123456789123456789123456789");
    assert_eq!(shown(&number("0").sub(&Int::zero())), "0");
}

#[test]
fn integer_products_and_powers() {
    assert_eq!(shown(&number("12345678901234567890").mul(&number("98765432109876543210"))), "1219326311370217952237463801111263526900");
    assert_eq!(shown(&number("1000").mul(&number("205"))), "205000");
    assert_eq!(shown(&number("205").mul(&Int::zero())), "0");
    assert_eq!(shown(&number("2").pow(0)), "1");
    assert_eq!(shown(&number("2").pow(1)), "2");
    assert_eq!(shown(&number("2").pow(100)), "1267650600228229401496703205376");
    assert_eq!(shown(&number("7").pow(13)), "96889010407");
    assert_eq!(shown(&Int::zero().pow(5)), "0");
    assert_eq!(number("2").pow(10).0, vec![Digit::Four, Digit::Two, Digit::Zero, Digit::One]);
    assert_eq!(Int::zero().pow(0).0, vec![Digit::One]);
    assert_eq!(number("007").pow(0).0, vec![Digit::One]);
    assert_eq!(number("010").pow(2).0, vec![Digit::Zero, Digit::Zero, Digit::One]);
    assert!(Int::zero().pow(3).0.is_empty());
}

#[test]
fn integer_order() {
    assert_eq!(number("99").order(&number("100")), Order::Less);
    assert_eq!(number("100").order(&number("99")), Order::Greater);
    assert_eq!(number("321").order(&number("312")), Order::Greater);
    assert_eq!(number("312").order(&number("321")), Order::Less);
    assert_eq!(number("312").order(&number("312")), Order::Equal);
    assert_eq!(Int::zero().order(&Int::zero()), Order::Equal);
    // the digits are compared, not the numbers
    assert_eq!(number("007").order(&number("12")), Order::Greater);
}

#[test]
fn division_by_one_digit() {
    let (digit, rest) = number("47").divmod(&number("6"));
    assert_eq!((digit, shown(&rest)), (Digit::Seven, "5".to_string()));
    let (digit, rest) = number("5").divmod(&number("6"));
    assert_eq!((digit, shown(&rest)), (Digit::Zero, "5".to_string()));
    let (digit, rest) = number("100").divmod(&number("7"));
    assert_eq!((digit, shown(&rest)), (Digit::Nine, "37".to_string()));
    let (digit, rest) = number("54").divmod(&number("6"));
    assert_eq!((digit, shown(&rest)), (Digit::Nine, "0".to_string()));
    let (digit, rest) = number("12").divmod(&Int::zero());
    assert_eq!((digit, shown(&rest)), (Digit::Nine, "12".to_string()));
}

#[test]
fn reciprocals() {
    assert_eq!(number("2").inverse(3).to_text(), "0.500");
    assert_eq!(number("3").inverse(5).to_text(), "0.33333");
    assert_eq!(number("7").inverse(12).to_text(), "0.142857142857");
    assert_eq!(number("1").inverse(4).to_text(), "0.9999");
    assert_eq!(number("1024").inverse(10).to_text(), "0.0009765625");
    assert_eq!(number("8").inverse(0).to_text(), "0.");
}

#[test]
fn decimals() {
    assert_eq!(Decimal::zero(3).to_text(), "0.000");
    assert_eq!(Decimal::zero(3).len(), 3);
    assert_eq!(decimal("0.125").digits(), &[Digit::Five, Digit::Two, Digit::One]);
    assert_eq!(decimal("0.125").add(&decimal("0.874")).to_text(), "0.999");
    assert_eq!(decimal("0.005").add(&decimal("0.005")).to_text(), "0.010");
    assert_eq!(decimal("0.125").mul(&number("7")).to_text(), "0.875");
    assert_eq!(decimal("0.125").mul(&Int::zero()).to_text(), "0.000");
    assert_eq!(decimal("0.0125").mul(&number("79")).to_text(), "0.9875");
    assert_eq!(decimal("0.123456").trim(2).to_text(), "0.1234");
    assert_eq!(decimal("0.12").trim(2).to_text(), "0.");
}

#[test]
fn digits_in_a_radix() {
    assert_eq!(to_char_radix("1", 2), Some('1'));
    assert_eq!(to_char_radix("2", 2), None);
    assert_eq!(to_char_radix("f", 16), Some('f'));
    assert_eq!(to_char_radix("F", 16), Some('F'));
    assert_eq!(to_char_radix("g", 16), None);
    assert_eq!(to_char_radix("z", 36), Some('z'));
    assert_eq!(to_char_radix("", 10), None);
    assert_eq!(to_char_radix("10", 10), None);
    assert_eq!(to_char_radix("+", 10), None);
    assert_eq!(to_char_radix("é", 36), None);
}

#[test]
fn tape_as_a_number() {
    let tape = strings(&["", "", "1", "x", "0", "x", "1", "x", "", "1"]);
    // 0.101 in radix 2 is 0.625
    assert_eq!(parse_decimal(&tape, 2, 4, 2, 2).to_text(), "0.6250");
    // every place is cut off, and so is the sum: 1/3 + 1/9
    let thirds = strings(&["1", "1"]);
    assert_eq!(parse_decimal(&thirds, 3, 3, 0, 1).to_text(), "0.444");
    assert_eq!(parse_decimal(&thirds, 3, 3, 0, 2).to_text(), "0.333");
    assert_eq!(parse_decimal(&thirds, 3, 3, 5, 1).to_text(), "0.000");
    let hex = strings(&["f", "F", "8"]);
    assert_eq!(parse_decimal(&hex, 16, 5, 0, 1).to_text(), "0.99804");
    assert_eq!(parse_decimal(&Vec::new(), 2, 3, 2, 2).to_text(), "0.000");
    assert_eq!(parse_decimal(&strings(&["7"]), 10, 0, 0, 1).to_text(), "0.");
}

#[test]
fn lines_of_a_tape() {
    let tape = strings(&["a", "bb", "ccc", "d", "e\u{301}e\u{301}", ""]);
    // a line holds 1 + the sum of (3 + the width of a symbol)
    assert_eq!(next_line(&tape, 0, 5), 1);
    assert_eq!(next_line(&tape, 0, 9), 1);
    assert_eq!(next_line(&tape, 0, 10), 2);
    assert_eq!(next_line(&tape, 0, 15), 2);
    assert_eq!(next_line(&tape, 0, 16), 3);
    assert_eq!(next_line(&tape, 2, 0), 3);
    assert_eq!(next_line(&tape, 3, 10), 5);
    assert_eq!(next_line(&tape, 3, 12), 5);
    assert_eq!(next_line(&tape, 3, 13), 6);
    assert_eq!(next_line(&tape, 5, 80), 6);
    assert_eq!(next_line(&tape, 0, usize::MAX), 6);
}
