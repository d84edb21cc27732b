//! Natural numbers of any size, as lists of decimal digits.

use vstd::prelude::*;
use vstd::string::StringExecFns;
use crate::decimal::Decimal;
use crate::digit::Digit;
use crate::text::{chars_of, push_char};

verus! {

/// Ten to the power `n`.
pub open spec fn pow10(n: nat) -> nat
    decreases n,
{
    if n == 0 {
        1
    } else {
        10 * pow10((n - 1) as nat)
    }
}

/// `base` to the power `exp`.
pub open spec fn power(base: nat, exp: nat) -> nat
    decreases exp,
{
    if exp == 0 {
        1
    } else {
        base * power(base, (exp - 1) as nat)
    }
}

/// The number that a list of digits stands for, the digit of the ones
/// first.
pub open spec fn number(digits: Seq<Digit>) -> nat
    decreases digits.len(),
{
    if digits.len() == 0 {
        0
    } else {
        digits[0].value() + 10 * number(digits.drop_first())
    }
}

/// A list of digits is canonical if it does not end in a zero: no number
/// has two canonical lists.
pub open spec fn canonical(digits: Seq<Digit>) -> bool {
    digits.len() == 0 || digits.last() != Digit::Zero
}

/// How two things stand to each other in an order.
#[derive(Clone, Copy, Debug, PartialEq, Eq, Structural)]
pub enum Order {
    Less,
    Equal,
    Greater,
}

/// How two numbers stand to each other.
pub open spec fn order_of(a: int, b: int) -> Order {
    if a < b {
        Order::Less
    } else if a == b {
        Order::Equal
    } else {
        Order::Greater
    }
}

/// How two lists of digits of the same length stand to each other, read
/// from the last digit.
pub open spec fn same_len_order(a: Seq<Digit>, b: Seq<Digit>) -> Order
    decreases a.len(),
{
    if a.len() == 0 || b.len() == 0 {
        Order::Equal
    } else if a.last().value() != b.last().value() {
        order_of(a.last().value() as int, b.last().value() as int)
    } else {
        same_len_order(a.drop_last(), b.drop_last())
    }
}

/// How two lists of digits stand to each other: the shorter one is less;
/// of two of the same length, the one that is less at the last digit in
/// which they differ.
pub open spec fn digits_order(a: Seq<Digit>, b: Seq<Digit>) -> Order {
    if a.len() != b.len() {
        order_of(a.len() as int, b.len() as int)
    } else {
        same_len_order(a, b)
    }
}

pub proof fn lemma_pow10_positive(n: nat)
    ensures
        pow10(n) > 0,
    decreases n,
{
    if n > 0 {
        lemma_pow10_positive((n - 1) as nat);
    }
}

pub proof fn lemma_pow10_monotonic(a: nat, b: nat)
    requires
        a <= b,
    ensures
        pow10(a) <= pow10(b),
    decreases b,
{
    if a < b {
        lemma_pow10_monotonic(a, (b - 1) as nat);
        lemma_pow10_positive((b - 1) as nat);
    }
}

/// A digit more at the end adds the digit times a power of ten.
pub proof fn lemma_number_push(s: Seq<Digit>, d: Digit)
    ensures
        number(s.push(d)) == number(s) + d.value() * pow10(s.len()),
    decreases s.len(),
{
    if s.len() == 0 {
        assert(s.push(d).drop_first() =~= Seq::<Digit>::empty());
        reveal_with_fuel(number, 2);
    } else {
        assert(s.push(d).drop_first() =~= s.drop_first().push(d));
        lemma_number_push(s.drop_first(), d);
        let p = pow10((s.len() - 1) as nat);
        let v = d.value();
        assert(10 * (v * p) == v * (10 * p)) by (nonlinear_arith);
    }
}

/// The number of the first `i + 1` digits, from that of the first `i`.
pub proof fn lemma_number_take(s: Seq<Digit>, i: int)
    requires
        0 <= i < s.len(),
    ensures
        number(s.take(i + 1)) == number(s.take(i)) + s[i].value() * pow10(i as nat),
{
    assert(s.take(i + 1) =~= s.take(i).push(s[i]));
    lemma_number_push(s.take(i), s[i]);
}

/// A number with `n` digits is below ten to the `n`.
pub proof fn lemma_number_bound(s: Seq<Digit>)
    ensures
        number(s) < pow10(s.len()),
    decreases s.len(),
{
    if s.len() > 0 {
        lemma_number_bound(s.drop_first());
    }
}

/// A canonical number with `n` digits, `n` not zero, is at least ten to
/// the `n - 1`.
pub proof fn lemma_canonical_bound(s: Seq<Digit>)
    requires
        canonical(s),
        s.len() > 0,
    ensures
        number(s) >= pow10((s.len() - 1) as nat),
{
    assert(s =~= s.drop_last().push(s.last()));
    lemma_number_push(s.drop_last(), s.last());
    let p = pow10((s.len() - 1) as nat);
    let v = s.last().value();
    assert(v * p >= p) by (nonlinear_arith)
        requires
            v >= 1,
            p >= 0,
    ;
}

/// Lists of the same length stand to each other as their numbers do.
pub proof fn lemma_same_len_order(a: Seq<Digit>, b: Seq<Digit>)
    requires
        a.len() == b.len(),
    ensures
        same_len_order(a, b) == order_of(number(a) as int, number(b) as int),
    decreases a.len(),
{
    if a.len() > 0 {
        assert(a =~= a.drop_last().push(a.last()));
        assert(b =~= b.drop_last().push(b.last()));
        lemma_number_push(a.drop_last(), a.last());
        lemma_number_push(b.drop_last(), b.last());
        lemma_number_bound(a.drop_last());
        lemma_number_bound(b.drop_last());
        lemma_same_len_order(a.drop_last(), b.drop_last());
        let p = pow10((a.len() - 1) as nat);
        let x = a.last().value();
        let y = b.last().value();
        if x < y {
            assert(x * p + p <= y * p) by (nonlinear_arith)
                requires
                    x + 1 <= y,
                    p >= 0,
            ;
        } else if y < x {
            assert(y * p + p <= x * p) by (nonlinear_arith)
                requires
                    y + 1 <= x,
                    p >= 0,
            ;
        }
    }
}

/// Canonical lists stand to each other as their numbers do.
pub proof fn lemma_digits_order(a: Seq<Digit>, b: Seq<Digit>)
    requires
        canonical(a),
        canonical(b),
    ensures
        digits_order(a, b) == order_of(number(a) as int, number(b) as int),
{
    lemma_number_bound(a);
    lemma_number_bound(b);
    if a.len() < b.len() {
        lemma_canonical_bound(b);
        lemma_pow10_monotonic(a.len(), (b.len() - 1) as nat);
    } else if b.len() < a.len() {
        lemma_canonical_bound(a);
        lemma_pow10_monotonic(b.len(), (a.len() - 1) as nat);
    } else {
        lemma_same_len_order(a, b);
    }
}

/// A list of zeros stands for zero.
pub proof fn lemma_zeros(s: Seq<Digit>)
    requires
        forall|i: int| 0 <= i < s.len() ==> s[i] == Digit::Zero,
    ensures
        number(s) == 0,
    decreases s.len(),
{
    if s.len() > 0 {
        lemma_zeros(s.drop_first());
    }
}

pub proof fn lemma_power_square(base: nat, exp: nat)
    ensures
        power(base, 2 * exp) == power(base * base, exp),
    decreases exp,
{
    if exp > 0 {
        lemma_power_square(base, (exp - 1) as nat);
        reveal_with_fuel(power, 3);
        let rest = power(base, (2 * exp - 2) as nat);
        assert(base * (base * rest) == (base * base) * rest) by (nonlinear_arith);
    }
}

/// The characters of a list of digits, the last digit first.
pub open spec fn digits_text(digits: Seq<Digit>) -> Seq<char> {
    Seq::new(digits.len(), |i: int| digits[digits.len() - 1 - i].character())
}

/// The digits that the characters from index `from` on are, read from the
/// end. `None` if one of them is no digit.
pub fn digits_of_chars(chars: &Vec<char>, from: usize) -> (r: Option<Vec<Digit>>)
    requires
        from <= chars.len(),
    ensures
        match r {
            Some(digits) => digits_text(digits@) == chars@.subrange(from as int, chars.len() as int),
            None => forall|digits: Seq<Digit>|
                digits_text(digits) != chars@.subrange(from as int, chars.len() as int),
        },
{
    let mut digits: Vec<Digit> = Vec::new();
    let mut i: usize = chars.len();
    while i > from
        invariant
            from <= i <= chars.len(),
            digits.len() == chars.len() - i,
            forall|j: int| 0 <= j < digits.len() ==> digits[j].character() == chars[chars.len() - 1 - j],
        decreases i,
    {
        i -= 1;
        match Digit::from_char(chars[i]) {
            Some(d) => {
                digits.push(d);
            },
            None => {
                assert forall|other: Seq<Digit>| digits_text(other) != chars@.subrange(
                    from as int,
                    chars.len() as int,
                ) by {
                    let rest = chars@.subrange(from as int, chars.len() as int);
                    if digits_text(other) == rest {
                        let k = i - from;
                        assert(digits_text(other).len() == other.len());
                        assert(rest.len() == chars.len() - from);
                        assert(rest[k] == chars[i as int]);
                        assert(digits_text(other)[k] == other[other.len() - 1 - k].character());
                    }
                }
                return None;
            },
        }
    }
    assert(digits_text(digits@) =~= chars@.subrange(from as int, chars.len() as int));
    Some(digits)
}

/// A natural number: its digits, the digit of the ones first. The empty
/// list is zero.
#[derive(Debug, PartialEq, Eq)]
pub struct Int(pub Vec<Digit>);

impl View for Int {
    type V = Seq<Digit>;

    open spec fn view(&self) -> Seq<Digit> {
        self.0@
    }
}

/// The digit at index `i`, and zero past the end.
pub fn digit_or_zero(digits: &Vec<Digit>, i: usize) -> (d: Digit)
    ensures
        d == if i < digits.len() {
            digits[i as int]
        } else {
            Digit::Zero
        },
{
    if i < digits.len() {
        digits[i]
    } else {
        Digit::Zero
    }
}

/// The sum of two numbers, the first with at least as many digits as the
/// second.
pub fn add_impl(big: &Vec<Digit>, small: &Vec<Digit>) -> (r: Int)
    requires
        small.len() <= big.len(),
    ensures
        r.value() == number(big@) + number(small@),
        canonical(big@) ==> canonical(r@),
{
    let mut sum: Vec<Digit> = Vec::new();
    let mut carry: bool = false;
    let mut i: usize = 0;
    assert(big@.take(0) =~= Seq::<Digit>::empty());
    assert(small@.take(0) =~= Seq::<Digit>::empty());
    while i < big.len()
        invariant
            i <= big.len(),
            small.len() <= big.len(),
            sum.len() == i,
            number(sum@) + (if carry {
                pow10(i as nat)
            } else {
                0nat
            }) == number(big@.take(i as int)) + number(
                small@.take(
                    if i < small.len() {
                        i as int
                    } else {
                        small.len() as int
                    },
                ),
            ),
            i > 0 && !carry && big[i - 1] != Digit::Zero ==> sum[i - 1] != Digit::Zero,
        decreases big.len() - i,
    {
        let a: Digit = big[i];
        let b: Digit = digit_or_zero(small, i);
        let (digit, next) = a.carrying_add(b, carry);
        proof {
            lemma_number_push(sum@, digit);
            lemma_number_take(big@, i as int);
            if i < small.len() {
                lemma_number_take(small@, i as int);
            }
            let p = pow10(i as nat);
            let dv = digit.value();
            let av = a.value();
            let bv = b.value();
            let c: nat = if carry {
                1
            } else {
                0
            };
            let n: nat = if next {
                1
            } else {
                0
            };
            assert(dv * p + n * (10 * p) == av * p + bv * p + c * p) by (nonlinear_arith)
                requires
                    dv + 10 * n == av + bv + c,
            ;
        }
        sum.push(digit);
        carry = next;
        i += 1;
    }
    assert(big@.take(big.len() as int) =~= big@);
    assert(small@.take(small.len() as int) =~= small@);
    if carry {
        proof {
            lemma_number_push(sum@, Digit::One);
            assert(1 * pow10(sum@.len()) == pow10(sum@.len())) by (nonlinear_arith);
        }
        sum.push(Digit::One);
    }
    Int(sum)
}

impl Int {
    /// The number.
    pub open spec fn value(self) -> nat {
        number(self@)
    }

    /// Zero.
    pub fn zero() -> (r: Int)
        ensures
            r@ == Seq::<Digit>::empty(),
            r.value() == 0,
    {
        Int(Vec::new())
    }

    /// One.
    pub fn one() -> (r: Int)
        ensures
            r@ == seq![Digit::One],
            r.value() == 1,
    {
        let mut digits: Vec<Digit> = Vec::new();
        digits.push(Digit::One);
        let r = Int(digits);
        assert(r@ =~= seq![Digit::One]);
        assert(r@.drop_first() =~= Seq::<Digit>::empty());
        reveal_with_fuel(number, 2);
        r
    }

    /// The number `i`, in canonical digits.
    pub fn from_usize(i: usize) -> (r: Int)
        ensures
            r.value() == i,
            canonical(r@),
    {
        let mut digits: Vec<Digit> = Vec::new();
        let mut rest: usize = i;
        let ghost mut p: nat = 1;
        while rest != 0
            invariant
                p == pow10(digits.len() as nat),
                number(digits@) + rest * p == i,
                rest == 0 ==> canonical(digits@),
            decreases rest,
        {
            let d = Digit::new_unchecked(rest % 10);
            proof {
                lemma_number_push(digits@, d);
                let q = rest / 10;
                let dv = d.value();
                assert(dv * p + q * (10 * p) == rest * p) by (nonlinear_arith)
                    requires
                        dv + 10 * q == rest,
                ;
                p = 10 * p;
            }
            digits.push(d);
            rest = rest / 10;
        }
        assert(number(digits@) + 0 * p == number(digits@)) by (nonlinear_arith);
        Int(digits)
    }

    /// The number that a hexadecimal digit stands for.
    pub fn from_hex_digit(c: char) -> (r: Int)
        requires
            hex_value(c) is Some,
        ensures
            Some(r.value()) == hex_value(c),
            canonical(r@),
    {
        let code: u32 = c as u32;
        if '0' <= c && c <= '9' {
            Int::from_usize((code - 48) as usize)
        } else if 'a' <= c && c <= 'f' {
            Int::from_usize((code - 97 + 10) as usize)
        } else {
            Int::from_usize((code - 65 + 10) as usize)
        }
    }

    /// Reads a number as it is written: its digits, the first digit first.
    /// `None` if a character is no digit.
    pub fn from_text(text: &str) -> (r: Option<Int>)
        ensures
            match r {
                Some(n) => digits_text(n@) == text@,
                None => forall|digits: Seq<Digit>| digits_text(digits) != text@,
            },
    {
        let chars = chars_of(text);
        assert(chars@.subrange(0, chars.len() as int) =~= text@);
        match digits_of_chars(&chars, 0) {
            Some(digits) => Some(Int(digits)),
            None => None,
        }
    }

    /// The number as it is written: `0` without digits, else the digits,
    /// the first digit first.
    pub fn to_text(&self) -> (text: String)
        ensures
            text@ == if self@.len() == 0 {
                "0"@
            } else {
                digits_text(self@)
            },
    {
        if self.0.len() == 0 {
            return String::from_str("0");
        }
        let mut text = String::new();
        let mut i: usize = self.0.len();
        assert(text@ =~= digits_text(self@).take(0));
        while i > 0
            invariant
                i <= self.0.len(),
                text@ == digits_text(self@).take(self.0.len() - i),
            decreases i,
        {
            i -= 1;
            push_char(&mut text, self.0[i].to_char());
            assert(text@ =~= digits_text(self@).take(self.0.len() - i));
        }
        assert(digits_text(self@).take(self.0.len() as int) =~= digits_text(self@));
        text
    }

    /// The digits, the digit of the ones first.
    pub fn digits(&self) -> (r: &[Digit])
        ensures
            r@ == self@,
    {
        self.0.as_slice()
    }

    /// A copy.
    pub fn copy(&self) -> (r: Int)
        ensures
            r@ == self@,
    {
        Int(self.0.clone())
    }

    /// Whether the number is written without digits.
    pub fn is_empty(&self) -> (r: bool)
        ensures
            r == (self@.len() == 0),
    {
        self.0.len() == 0
    }

    /// Ten times the number: its digits behind a zero.
    pub fn times_ten(self) -> (r: Int)
        ensures
            r@ == seq![Digit::Zero] + self@,
            r.value() == 10 * self.value(),
    {
        let mut digits = self.0;
        digits.insert(0, Digit::Zero);
        let r = Int(digits);
        assert(r@ =~= seq![Digit::Zero] + self@);
        assert(r@.drop_first() =~= self@);
        r
    }

    /// The sum.
    pub fn add(&self, rhs: &Int) -> (r: Int)
        ensures
            r.value() == self.value() + rhs.value(),
            canonical(self@) && canonical(rhs@) ==> canonical(r@),
    {
        if self.0.len() < rhs.0.len() {
            add_impl(&rhs.0, &self.0)
        } else {
            add_impl(&self.0, &rhs.0)
        }
    }

    /// How the digits of two numbers stand to each other. For canonical
    /// numbers this is how the numbers stand to each other.
    pub fn order(&self, rhs: &Int) -> (r: Order)
        ensures
            r == digits_order(self@, rhs@),
            canonical(self@) && canonical(rhs@) ==> r == order_of(
                self.value() as int,
                rhs.value() as int,
            ),
    {
        proof {
            if canonical(self@) && canonical(rhs@) {
                lemma_digits_order(self@, rhs@);
            }
        }
        if self.0.len() < rhs.0.len() {
            return Order::Less;
        }
        if self.0.len() > rhs.0.len() {
            return Order::Greater;
        }
        let mut i: usize = self.0.len();
        assert(self@.take(i as int) =~= self@);
        assert(rhs@.take(i as int) =~= rhs@);
        while i > 0
            invariant
                i <= self.0.len(),
                self.0.len() == rhs.0.len(),
                canonical(self@) && canonical(rhs@) ==> digits_order(self@, rhs@) == order_of(
                    self.value() as int,
                    rhs.value() as int,
                ),
                same_len_order(self@, rhs@) == same_len_order(
                    self@.take(i as int),
                    rhs@.take(i as int),
                ),
            decreases i,
        {
            i -= 1;
            assert(self@.take(i + 1).drop_last() =~= self@.take(i as int));
            assert(rhs@.take(i + 1).drop_last() =~= rhs@.take(i as int));
            let a: usize = self.0[i].to_usize();
            let b: usize = rhs.0[i].to_usize();
            if a < b {
                return Order::Less;
            }
            if a > b {
                return Order::Greater;
            }
        }
        Order::Equal
    }

    /// The difference. The subtrahend must be no larger and no longer.
    pub fn sub(&self, rhs: &Int) -> (r: Int)
        requires
            rhs@.len() <= self@.len(),
            rhs.value() <= self.value(),
        ensures
            r.value() == self.value() - rhs.value(),
            canonical(r@),
    {
        let mut diff: Vec<Digit> = Vec::new();
        let mut borrow: bool = false;
        let mut i: usize = 0;
        assert(self@.take(0) =~= Seq::<Digit>::empty());
        assert(rhs@.take(0) =~= Seq::<Digit>::empty());
        while i < self.0.len()
            invariant
                i <= self.0.len(),
                rhs.0.len() <= self.0.len(),
                diff.len() == i,
                number(diff@) + number(
                    rhs@.take(
                        if i < rhs.0.len() {
                            i as int
                        } else {
                            rhs.0.len() as int
                        },
                    ),
                ) == number(self@.take(i as int)) + (if borrow {
                    pow10(i as nat)
                } else {
                    0nat
                }),
            decreases self.0.len() - i,
        {
            let a: usize = self.0[i].to_usize();
            let bd: Digit = digit_or_zero(&rhs.0, i);
            let b: usize = bd.to_usize() + if borrow {
                1
            } else {
                0
            };
            let next: bool = a < b;
            let digit = if next {
                Digit::new_unchecked(a + 10 - b)
            } else {
                Digit::new_unchecked(a - b)
            };
            proof {
                lemma_number_push(diff@, digit);
                lemma_number_take(self@, i as int);
                if i < rhs.0.len() {
                    lemma_number_take(rhs@, i as int);
                }
                let p = pow10(i as nat);
                let dv = digit.value();
                let av = self.0[i as int].value();
                let bv = bd.value();
                let c: nat = if borrow {
                    1
                } else {
                    0
                };
                let n: nat = if next {
                    1
                } else {
                    0
                };
                assert(dv * p + bv * p + c * p == av * p + n * (10 * p)) by (nonlinear_arith)
                    requires
                        dv + bv + c == av + 10 * n,
                ;
            }
            diff.push(digit);
            borrow = next;
            i += 1;
        }
        assert(self@.take(self.0.len() as int) =~= self@);
        assert(rhs@.take(rhs.0.len() as int) =~= rhs@);
        proof {
            lemma_number_bound(diff@);
        }
        trim_zeros(&mut diff);
        Int(diff)
    }

    /// The product.
    pub fn mul(&self, rhs: &Int) -> (r: Int)
        ensures
            r.value() == self.value() * rhs.value(),
            canonical(r@),
    {
        let mut prod = Int::zero();
        let mut i: usize = 0;
        assert(self@.take(0) =~= Seq::<Digit>::empty());
        assert(0 * rhs.value() == 0) by (nonlinear_arith);
        while i < self.0.len()
            invariant
                i <= self.0.len(),
                prod.value() == number(self@.take(i as int)) * rhs.value(),
                canonical(prod@),
            decreases self.0.len() - i,
        {
            let mut term = shifted_product(self.0[i], &rhs.0, i);
            trim_zeros(&mut term);
            let ghost before = prod.value();
            prod = prod.add(&Int(term));
            proof {
                lemma_number_take(self@, i as int);
                let t = number(self@.take(i as int));
                let a = self.0[i as int].value();
                let p = pow10(i as nat);
                let v = rhs.value();
                assert((t + a * p) * v == t * v + a * v * p) by (nonlinear_arith);
            }
            i += 1;
        }
        assert(self@.take(self.0.len() as int) =~= self@);
        prod
    }

    /// The number to the power `exp`, in canonical digits. The power 0 of
    /// any number, zero too, is one.
    pub fn pow(&self, exp: u64) -> (r: Int)
        ensures
            r.value() == power(self.value(), exp as nat),
            canonical(r@),
            exp == 0 ==> r@ == seq![Digit::One],
    {
        if exp == 0 {
            return Int::one();
        }
        let mut base = self.copy();
        let mut acc = Int::one();
        let mut e: u64 = exp;
        assert(1 * power(self.value(), exp as nat) == power(self.value(), exp as nat))
            by (nonlinear_arith);
        while e > 1
            invariant
                e >= 1,
                acc.value() * power(base.value(), e as nat) == power(self.value(), exp as nat),
            decreases e,
        {
            let ghost a = acc.value();
            let ghost b = base.value();
            proof {
                lemma_power_square(b, (e / 2) as nat);
                let half = power(b * b, (e / 2) as nat);
                if e % 2 == 1 {
                    assert(power(b, e as nat) == b * power(b, (e - 1) as nat));
                    assert(a * (b * half) == (a * b) * half) by (nonlinear_arith);
                }
            }
            if e % 2 == 1 {
                acc = acc.mul(&base);
            }
            e = e / 2;
            base = base.mul(&base);
        }
        proof {
            reveal_with_fuel(power, 2);
            let b = base.value();
            assert(b * 1 == b) by (nonlinear_arith);
        }
        acc.mul(&base)
    }

    /// The largest digit `q` with `q` times `denom` no larger than the
    /// number, and what is left of the number then.
    pub fn divmod(&self, denom: &Int) -> (r: (Digit, Int))
        requires
            canonical(self@),
            canonical(denom@),
        ensures
            self.value() == r.0.value() * denom.value() + r.1.value(),
            r.0.value() == 9 || r.1.value() < denom.value(),
            canonical(r.1@),
    {
        let mut digit = Digit::Zero;
        let mut prod = Int::zero();
        assert(0 * denom.value() == 0) by (nonlinear_arith);
        while digit.to_usize() < 9
            invariant
                canonical(self@),
                canonical(denom@),
                canonical(prod@),
                prod.value() == digit.value() * denom.value(),
                prod.value() <= self.value(),
            ensures
                digit.value() == 9 || self.value() < prod.value() + denom.value(),
            decreases 9 - digit.value(),
        {
            let next = prod.add(denom);
            match next.order(self) {
                Order::Greater => {
                    break ;
                },
                _ => {},
            }
            proof {
                let d = digit.value();
                let v = denom.value();
                assert((d + 1) * v == d * v + v) by (nonlinear_arith);
            }
            digit.increment();
            prod = next;
        }
        proof {
            lemma_digits_order(prod@, self@);
        }
        let rem = self.sub(&prod);
        (digit, rem)
    }

    /// The reciprocal of the number to `len` decimal places, cut off. The
    /// reciprocal of one is written as `len` nines.
    pub fn inverse(&self, len: usize) -> (r: Decimal)
        requires
            canonical(self@),
            self@.len() > 0,
        ensures
            r@.len() == len,
            number(r@) == inverse_value(self.value(), len as nat),
    {
        let mut digits: Vec<Digit> = Vec::new();
        let mut minuend = Int::from_usize(10);
        let ghost mut quotient: nat = 0;
        let ghost mut rest: nat = 1;
        proof {
            lemma_canonical_bound(self@);
            lemma_pow10_positive((self@.len() - 1) as nat);
            assert(0 * self.value() == 0) by (nonlinear_arith);
        }
        let mut i: usize = 0;
        while i < len
            invariant
                i <= len,
                canonical(self@),
                self.value() >= 1,
                canonical(minuend@),
                minuend.value() == 10 * rest,
                digits.len() == i,
                number(digits@) == quotient,
                quotient * self.value() + rest == pow10(i as nat),
                if self.value() == 1 {
                    rest == 1
                } else {
                    rest < self.value()
                },
            decreases len - i,
        {
            let (digit, rem) = minuend.divmod(self);
            proof {
                let d = digit.value();
                let v = self.value();
                let q = quotient;
                let r = rem.value();
                assert((10 * q + d) * v + r == 10 * (q * v + rest)) by (nonlinear_arith)
                    requires
                        10 * rest == d * v + r,
                ;
                if v >= 2 && r >= v {
                    assert(d * v + r >= 10 * v) by (nonlinear_arith)
                        requires
                            d == 9,
                            r >= v,
                    ;
                }
                if v == 1 {
                    assert(d * v == d) by (nonlinear_arith)
                        requires
                            v == 1,
                    ;
                }
                quotient = 10 * q + d;
                rest = r;
            }
            let ghost before = digits@;
            digits.insert(0, digit);
            assert(digits@ =~= seq![digit] + before);
            assert(digits@.drop_first() =~= before);
            minuend = if rem.is_empty() {
                rem
            } else {
                rem.times_ten()
            };
            i += 1;
        }
        proof {
            let v = self.value();
            let p = pow10(len as nat);
            if v >= 2 {
                vstd::arithmetic::div_mod::lemma_fundamental_div_mod_converse(
                    p as int,
                    v as int,
                    quotient as int,
                    rest as int,
                );
            } else {
                assert(quotient * v == quotient) by (nonlinear_arith)
                    requires
                        v == 1,
                ;
            }
        }
        Decimal::new(digits)
    }
}

/// The reciprocal of `n`, times ten to the `len`, cut off; one less than
/// ten to the `len` for `n` one.
pub open spec fn inverse_value(n: nat, len: nat) -> nat {
    if n == 1 {
        (pow10(len) - 1) as nat
    } else {
        pow10(len) / n
    }
}

/// The number that a hexadecimal digit stands for.
pub open spec fn hex_value(c: char) -> Option<nat> {
    if '0' <= c <= '9' {
        Some((c as u32 - 48) as nat)
    } else if 'a' <= c <= 'f' {
        Some((c as u32 - 97 + 10) as nat)
    } else if 'A' <= c <= 'F' {
        Some((c as u32 - 65 + 10) as nat)
    } else {
        None
    }
}

/// Removes the zeros at the end of a list of digits.
pub fn trim_zeros(digits: &mut Vec<Digit>)
    ensures
        number(final(digits)@) == number(old(digits)@),
        canonical(final(digits)@),
        final(digits)@.len() <= old(digits)@.len(),
{
    while digits.len() > 0 && digits[digits.len() - 1].to_usize() == 0
        invariant
            number(digits@) == number(old(digits)@),
            digits@.len() <= old(digits)@.len(),
        decreases digits.len(),
    {
        let ghost before = digits@;
        digits.pop();
        proof {
            assert(before =~= digits@.push(Digit::Zero));
            lemma_number_push(digits@, Digit::Zero);
            assert(0 * pow10(digits@.len()) == 0) by (nonlinear_arith);
        }
    }
}

/// The digits of `a` times the number `rhs` times ten to the `shift`.
pub fn shifted_product(a: Digit, rhs: &Vec<Digit>, shift: usize) -> (term: Vec<Digit>)
    ensures
        number(term@) == a.value() * number(rhs@) * pow10(shift as nat),
{
    let mut term: Vec<Digit> = Vec::new();
    let mut k: usize = 0;
    while k < shift
        invariant
            k <= shift,
            term.len() == k,
            forall|j: int| 0 <= j < k ==> term[j] == Digit::Zero,
        decreases shift - k,
    {
        term.push(Digit::Zero);
        k += 1;
    }
    proof {
        lemma_zeros(term@);
        assert(rhs@.take(0) =~= Seq::<Digit>::empty());
        assert(a.value() * 0 * pow10(shift as nat) == 0) by (nonlinear_arith);
    }
    let mut carry = Digit::Zero;
    let mut j: usize = 0;
    let ghost p = pow10(shift as nat);
    while j < rhs.len()
        invariant
            j <= rhs.len(),
            term.len() == shift + j,
            p == pow10(shift as nat),
            number(term@) + carry.value() * pow10((shift + j) as nat) == a.value() * number(
                rhs@.take(j as int),
            ) * p,
        decreases rhs.len() - j,
    {
        let (digit, next) = a.carrying_mul(rhs[j], carry);
        proof {
            lemma_number_push(term@, digit);
            lemma_number_take(rhs@, j as int);
            lemma_pow10_add(shift as nat, j as nat);
            let q = pow10((shift + j) as nat);
            let pj = pow10(j as nat);
            let dv = digit.value();
            let nv = next.value();
            let av = a.value();
            let bv = rhs[j as int].value();
            let cv = carry.value();
            let t = number(rhs@.take(j as int));
            assert(av * (t + bv * pj) * p + cv * q == av * t * p + cv * q + (av * bv) * q)
                by (nonlinear_arith)
                requires
                    q == p * pj,
            ;
            assert(dv * q + nv * (10 * q) == (av * bv) * q + cv * q) by (nonlinear_arith)
                requires
                    dv + 10 * nv == av * bv + cv,
            ;
        }
        term.push(digit);
        carry = next;
        j += 1;
    }
    assert(rhs@.take(rhs.len() as int) =~= rhs@);
    proof {
        lemma_number_push(term@, carry);
    }
    term.push(carry);
    term
}

/// Ten to a sum is the product of the powers of ten.
pub proof fn lemma_pow10_add(a: nat, b: nat)
    ensures
        pow10(a + b) == pow10(a) * pow10(b),
    decreases b,
{
    if b == 0 {
        assert(pow10(a) * 1 == pow10(a)) by (nonlinear_arith);
    } else {
        lemma_pow10_add(a, (b - 1) as nat);
        let x = pow10(a);
        let y = pow10((b - 1) as nat);
        assert(10 * (x * y) == x * (10 * y)) by (nonlinear_arith);
    }
}

} // verus!
