//! The final tape, for people: how many of its symbols fit on a line, and
//! the number between zero and one that its symbols spell as digits.

use vstd::prelude::*;
use vstd::string::StrSliceExecFns;
use unicode_segmentation::UnicodeSegmentation;
use crate::decimal::Decimal;
use crate::digit::Digit;
use crate::integer::{canonical, hex_value, inverse_value, lemma_pow10_positive, number, pow10, Int};

verus! {

/// The extended grapheme clusters of a text, in order.
pub uninterp spec fn graphemes(text: Seq<char>) -> Seq<Seq<char>>;

/// The texts of a list of strings.
pub open spec fn texts(strings: Seq<String>) -> Seq<Seq<char>> {
    Seq::new(strings.len(), |i: int| strings[i]@)
}

/// `unicode_segmentation::UnicodeSegmentation::graphemes`, with extended
/// clusters: the grapheme clusters of `text`, each as a string of its own.
#[verifier::external_body]
fn graphemes_of(text: &str) -> (clusters: Vec<String>)
    ensures
        texts(clusters@) == graphemes(text@),
{
    text.graphemes(true).map(|cluster| cluster.to_string()).collect()
}

/// The number of grapheme clusters of a text.
pub fn grapheme_count(text: &str) -> (n: usize)
    ensures
        n == graphemes(text@).len(),
{
    graphemes_of(text).len()
}

/// The width of a line that shows the symbols of `tape` from index `from`
/// up to index `end`: each symbol in a box, with a space on either side.
pub open spec fn line_width(tape: Seq<String>, from: int, end: int) -> int
    decreases end - from,
{
    if end <= from {
        1
    } else {
        line_width(tape, from, end - 1) + graphemes(tape[end - 1]@).len() + 3
    }
}

/// The index after the last symbol of the line that starts at `from` and is
/// filled up to index `end`: symbols are added as long as the line stays
/// within `width`.
pub open spec fn line_end(tape: Seq<String>, from: int, end: int, width: int) -> int
    decreases tape.len() - end,
{
    if end < tape.len() && line_width(tape, from, end + 1) <= width {
        line_end(tape, from, end + 1, width)
    } else {
        end
    }
}

/// The symbols of `tape` that go on the line that starts with the symbol at
/// index `from`: that symbol, and those after it as long as the line stays
/// within `width`. Returns the index after the last of them.
pub fn next_line(tape: &Vec<String>, from: usize, width: usize) -> (end: usize)
    requires
        from < tape.len(),
    ensures
        from < end <= tape.len(),
        end == line_end(tape@, from as int, from + 1, width as int),
{
    let first: usize = grapheme_count(tape[from].as_str());
    let mut len: usize = if first > usize::MAX - 4 {
        usize::MAX
    } else {
        first + 4
    };
    let mut end: usize = from + 1;
    assert(line_width(tape@, from as int, from as int) == 1);
    while end < tape.len()
        invariant
            from < end <= tape.len(),
            len == if line_width(tape@, from as int, end as int) > usize::MAX {
                usize::MAX as int
            } else {
                line_width(tape@, from as int, end as int)
            },
            line_width(tape@, from as int, end as int) >= 1,
            line_end(tape@, from as int, from + 1, width as int) == line_end(
                tape@,
                from as int,
                end as int,
                width as int,
            ),
        decreases tape.len() - end,
    {
        let count: usize = grapheme_count(tape[end].as_str());
        if len > width || count > width - len || 3 > width - len - count {
            return end;
        }
        len = len + count + 3;
        end += 1;
    }
    end
}

/// The number that the digit `c` stands for, with the letters from `a` for
/// ten on, large or small.
pub open spec fn digit_value(c: char) -> Option<nat> {
    if '0' <= c <= '9' {
        Some((c as u32 - 48) as nat)
    } else if 'a' <= c <= 'z' {
        Some((c as u32 - 97 + 10) as nat)
    } else if 'A' <= c <= 'Z' {
        Some((c as u32 - 65 + 10) as nat)
    } else {
        None
    }
}

/// Whether a symbol is one digit in the radix.
pub open spec fn is_digit(symbol: Seq<char>, radix: int) -> bool {
    symbol.len() == 1 && digit_value(symbol[0]) is Some && digit_value(symbol[0])->0 < radix
}

/// The character of a symbol that is one digit in the radix.
pub fn to_char_radix(symbol: &str, radix: usize) -> (r: Option<char>)
    requires
        2 <= radix <= 36,
    ensures
        r is Some <==> is_digit(symbol@, radix as int),
        r is Some ==> r->0 == symbol@[0],
{
    if symbol.unicode_len() != 1 {
        return None;
    }
    let c: char = symbol.get_char(0);
    let code: u32 = c as u32;
    let value: u32 = if '0' <= c && c <= '9' {
        code - 48
    } else if 'a' <= c && c <= 'z' {
        code - 97 + 10
    } else if 'A' <= c && c <= 'Z' {
        code - 65 + 10
    } else {
        return None;
    };
    if (value as usize) < radix {
        Some(c)
    } else {
        None
    }
}

/// The index `stride` after `at`, and `len` if that is past the end.
pub open spec fn next_index(len: int, at: int, stride: int) -> int {
    if at + stride > len {
        len
    } else {
        at + stride
    }
}

/// The sum that the digits of a tape spell, times ten to the `places`: the
/// symbols at `at`, `at + stride` and so on, up to the first that is no
/// digit in the radix, each times the reciprocal of a power of the radix,
/// cut off at `places` places. `power` is the power of the radix that
/// belongs to the symbol at `at`.
pub open spec fn series(
    tape: Seq<String>,
    radix: nat,
    at: int,
    stride: int,
    power: nat,
    places: nat,
) -> nat
    decreases tape.len() - at,
{
    if at < 0 || at >= tape.len() || stride <= 0 || !is_digit(tape[at]@, radix as int) {
        0
    } else {
        inverse_value(power, places) * digit_value(tape[at]@[0])->0 + series(
            tape,
            radix,
            next_index(tape.len() as int, at, stride),
            stride,
            power * radix,
            places,
        )
    }
}

/// Whether every digit that [`series`] reads is a hexadecimal digit.
pub open spec fn hex_only(tape: Seq<String>, radix: nat, at: int, stride: int) -> bool
    decreases tape.len() - at,
{
    if at < 0 || at >= tape.len() || stride <= 0 || !is_digit(tape[at]@, radix as int) {
        true
    } else {
        hex_value(tape[at]@[0]) is Some && hex_only(
            tape,
            radix,
            next_index(tape.len() as int, at, stride),
            stride,
        )
    }
}

/// The digits after the first `n` stand for the number divided by ten to
/// the `n`.
pub proof fn lemma_number_skip(s: Seq<Digit>, n: int)
    requires
        0 <= n <= s.len(),
    ensures
        number(s.subrange(n, s.len() as int)) == number(s) / pow10(n as nat),
    decreases n,
{
    if n == 0 {
        assert(s.subrange(0, s.len() as int) =~= s);
        assert(pow10(n as nat) == 1);
        assert(number(s) / 1 == number(s));
    } else {
        let rest = s.drop_first();
        lemma_number_skip(rest, n - 1);
        assert(rest.subrange(n - 1, rest.len() as int) =~= s.subrange(n, s.len() as int));
        let p = pow10((n - 1) as nat) as int;
        lemma_pow10_positive((n - 1) as nat);
        let d = s[0].value() as int;
        let r = number(rest) as int;
        let q = r / p;
        let m = r % p;
        vstd::arithmetic::div_mod::lemma_fundamental_div_mod(r, p);
        vstd::arithmetic::div_mod::lemma_mod_pos_bound(r, p);
        assert(d + 10 * r == q * (10 * p) + (10 * m + d)) by (nonlinear_arith)
            requires
                r == p * q + m,
        ;
        vstd::arithmetic::div_mod::lemma_fundamental_div_mod_converse(
            d + 10 * r,
            10 * p,
            q,
            10 * m + d,
        );
        assert(pow10(n as nat) == 10 * p);
        assert(number(s) == d + 10 * r);
        assert(number(rest.subrange(n - 1, rest.len() as int)) == q);
    }
}

/// The number between zero and one that the symbols of a tape spell in
/// the radix, to `digits` decimal places: the symbol at `start` is the
/// first place after the point, the symbol `stride` further on the second,
/// and so on up to the first symbol that is no digit. Every place is
/// worked out to twice as many decimal places and cut off, and so is
/// their sum.
pub fn parse_decimal(tape: &Vec<String>, radix: usize, digits: usize, start: usize, stride: usize)
    -> (r: Decimal)
    requires
        2 <= radix <= 36,
        stride > 0,
        2 * digits <= usize::MAX,
        hex_only(tape@, radix as nat, start as int, stride as int),
    ensures
        r@.len() == digits,
        number(r@) == series(
            tape@,
            radix as nat,
            start as int,
            stride as int,
            radix as nat,
            (2 * digits) as nat,
        ) / pow10(digits as nat),
{
    let places: usize = 2 * digits;
    let ghost total = series(
        tape@,
        radix as nat,
        start as int,
        stride as int,
        radix as nat,
        places as nat,
    );
    let ghost limit = pow10(places as nat);
    proof {
        lemma_pow10_positive(places as nat);
        lemma_pow10_positive(digits as nat);
    }
    if tape.len() == 0 {
        let zero = Decimal::zero(digits);
        assert(0nat / pow10(digits as nat) == 0) by (nonlinear_arith)
            requires
                pow10(digits as nat) > 0,
        ;
        return zero;
    }
    let mut decimal = Decimal::zero(places);
    let base = Int::from_usize(radix);
    let mut power = Int::from_usize(radix);
    let mut at: usize = start;
    let ghost mut before: nat = 1;
    proof {
        assert(decimal.value() * 1 <= limit * (1 - 1));
        assert(1 * radix == radix);
    }
    while at < tape.len()
        invariant
            2 <= radix <= 36,
            stride > 0,
            places == 2 * digits,
            limit == pow10(places as nat),
            limit > 0,
            canonical(base@),
            base.value() == radix,
            canonical(power@),
            before >= 1,
            power.value() == before * radix,
            decimal@.len() == places,
            decimal.value() * before <= limit * (before - 1),
            hex_only(tape@, radix as nat, at as int, stride as int),
            total == decimal.value() + series(
                tape@,
                radix as nat,
                at as int,
                stride as int,
                power.value(),
                places as nat,
            ),
        ensures
            decimal@.len() == places,
            total == decimal.value(),
        decreases tape.len() - at,
    {
        let c: char = match to_char_radix(tape[at].as_str(), radix) {
            Some(c) => c,
            None => {
                break ;
            },
        };
        let digit = Int::from_hex_digit(c);
        proof {
            assert(power.value() >= 2) by (nonlinear_arith)
                requires
                    power.value() == before * radix,
                    before >= 1,
                    radix >= 2,
            ;
            assert(power@.len() > 0);
        }
        let coeff = power.inverse(places);
        proof {
            let p = power.value();
            let cv = coeff.value();
            let dv = digit.value();
            let acc = decimal.value();
            let r = radix as nat;
            assert(cv == limit / p);
            assert(cv * p <= limit) by (nonlinear_arith)
                requires
                    cv == limit / p,
                    p > 0,
                    limit >= 0,
            ;
            assert((acc + cv * dv) * p <= limit * (p - 1)) by (nonlinear_arith)
                requires
                    acc * before <= limit * (before - 1),
                    p == before * r,
                    cv * p <= limit,
                    dv <= r - 1,
                    r >= 2,
                    before >= 1,
                    acc >= 0,
                    cv >= 0,
                    dv >= 0,
                    limit >= 0,
            ;
            assert(acc + cv * dv < limit) by (nonlinear_arith)
                requires
                    (acc + cv * dv) * p <= limit * (p - 1),
                    p > 0,
                    limit > 0,
            ;
            assert(cv * dv <= acc + cv * dv);
            before = p;
        }
        let term = coeff.mul(&digit);
        decimal = decimal.add(&term);
        let ghost old_power = power.value();
        power = base.mul(&power);
        proof {
            assert(base.value() * old_power == old_power * radix) by (nonlinear_arith)
                requires
                    base.value() == radix,
            ;
        }
        if stride >= tape.len() - at {
            at = tape.len();
        } else {
            at = at + stride;
        }
    }
    proof {
        lemma_number_skip(decimal@, digits as int);
    }
    decimal.trim(digits)
}

} // verus!
