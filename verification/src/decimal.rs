//! Numbers between zero and one with a fixed number of decimal places.

use vstd::prelude::*;
use vstd::string::StringExecFns;
use crate::digit::Digit;
use crate::integer::{
    canonical, digits_of_chars, digits_text, lemma_canonical_bound, lemma_number_push,
    lemma_pow10_monotonic, lemma_zeros, number, pow10, Int,
};
use crate::text::{chars_of, push_char};

verus! {

/// A number between zero and one: its decimal places, the last place
/// first. With `n` places, the places that stand for the number `v` stand
/// for `v` divided by ten to the `n`.
#[derive(Debug, PartialEq, Eq)]
pub struct Decimal(pub Vec<Digit>);

impl View for Decimal {
    type V = Seq<Digit>;

    open spec fn view(&self) -> Seq<Digit> {
        self.0@
    }
}

/// A canonical number below ten to the `n` has at most `n` digits.
pub proof fn lemma_canonical_len(s: Seq<Digit>, n: nat)
    requires
        canonical(s),
        number(s) < pow10(n),
    ensures
        s.len() <= n,
{
    if s.len() > n {
        lemma_canonical_bound(s);
        lemma_pow10_monotonic(n, (s.len() - 1) as nat);
    }
}

impl Decimal {
    /// The places as one number.
    pub open spec fn value(self) -> nat {
        number(self@)
    }

    /// The decimal with the places `digits`, the last place first.
    pub fn new(digits: Vec<Digit>) -> (r: Decimal)
        ensures
            r@ == digits@,
    {
        Decimal(digits)
    }

    /// Zero with `len` places.
    pub fn zero(len: usize) -> (r: Decimal)
        ensures
            r@.len() == len,
            forall|i: int| 0 <= i < len ==> r@[i] == Digit::Zero,
            r.value() == 0,
    {
        let mut digits: Vec<Digit> = Vec::new();
        let mut i: usize = 0;
        while i < len
            invariant
                i <= len,
                digits.len() == i,
                forall|j: int| 0 <= j < i ==> digits[j] == Digit::Zero,
            decreases len - i,
        {
            digits.push(Digit::Zero);
            i += 1;
        }
        proof {
            lemma_zeros(digits@);
        }
        Decimal(digits)
    }

    /// The number of places.
    pub fn len(&self) -> (n: usize)
        ensures
            n == self@.len(),
    {
        self.0.len()
    }

    /// The places, the last place first.
    pub fn digits(&self) -> (r: &[Digit])
        ensures
            r@ == self@,
    {
        self.0.as_slice()
    }

    /// Cuts off the last `n` places.
    pub fn trim(self, n: usize) -> (r: Decimal)
        requires
            n <= self@.len(),
        ensures
            r@ == self@.subrange(n as int, self@.len() as int),
    {
        let mut digits = self.0;
        let rest = digits.split_off(n);
        Decimal(rest)
    }

    /// The sum of two decimals with the same number of places. The sum
    /// must be below one.
    pub fn add(&self, rhs: &Decimal) -> (r: Decimal)
        requires
            self@.len() == rhs@.len(),
            self.value() + rhs.value() < pow10(self@.len()),
        ensures
            r@.len() == self@.len(),
            r.value() == self.value() + rhs.value(),
    {
        let sum = crate::integer::add_impl(&self.0, &rhs.0);
        let mut digits = sum.0;
        trim_and_pad(&mut digits, self.0.len());
        Decimal(digits)
    }

    /// The product of a decimal and a whole number. The product must be
    /// below one.
    pub fn mul(&self, rhs: &Int) -> (r: Decimal)
        requires
            self.value() * rhs.value() < pow10(self@.len()),
        ensures
            r@.len() == self@.len(),
            r.value() == self.value() * rhs.value(),
    {
        let places = Int(self.0.clone());
        let product = places.mul(rhs);
        let mut digits = product.0;
        trim_and_pad(&mut digits, self.0.len());
        Decimal(digits)
    }

    /// Reads a decimal as it is written: `0.` and the places, the first
    /// place first. `None` for any other text.
    pub fn from_text(text: &str) -> (r: Option<Decimal>)
        ensures
            match r {
                Some(d) => text@ == "0."@ + digits_text(d@),
                None => forall|digits: Seq<Digit>| text@ != "0."@ + digits_text(digits),
            },
    {
        let chars = chars_of(text);
        proof {
            reveal_strlit("0.");
        }
        if chars.len() < 2 || chars[0] != '0' || chars[1] != '.' {
            assert forall|digits: Seq<Digit>| text@ != "0."@ + digits_text(digits) by {
                if text@ == "0."@ + digits_text(digits) {
                    assert(text@[0] == '0' && text@[1] == '.');
                }
            }
            return None;
        }
        match digits_of_chars(&chars, 2) {
            Some(digits) => {
                assert(text@ =~= "0."@ + chars@.subrange(2, chars.len() as int));
                Some(Decimal(digits))
            },
            None => {
                assert forall|digits: Seq<Digit>| text@ != "0."@ + digits_text(digits) by {
                    if text@ == "0."@ + digits_text(digits) {
                        assert(chars@.subrange(2, chars.len() as int) =~= digits_text(digits));
                    }
                }
                None
            },
        }
    }

    /// The decimal as it is written: `0.` and the places, the first place
    /// first.
    pub fn to_text(&self) -> (text: String)
        ensures
            text@ == "0."@ + digits_text(self@),
    {
        let mut text = String::from_str("0.");
        let mut i: usize = self.0.len();
        assert(text@ =~= "0."@ + digits_text(self@).take(0));
        while i > 0
            invariant
                i <= self.0.len(),
                text@ == "0."@ + digits_text(self@).take(self.0.len() - i),
            decreases i,
        {
            i -= 1;
            let ghost before = text@;
            push_char(&mut text, self.0[i].to_char());
            assert(text@ =~= "0."@ + digits_text(self@).take(self.0.len() - i));
        }
        assert(digits_text(self@).take(self.0.len() as int) =~= digits_text(self@));
        text
    }
}

/// Makes a list of digits that stands for a number below ten to the `len`
/// exactly `len` digits long.
pub fn trim_and_pad(digits: &mut Vec<Digit>, len: usize)
    requires
        number(old(digits)@) < pow10(len as nat),
    ensures
        final(digits)@.len() == len,
        number(final(digits)@) == number(old(digits)@),
{
    crate::integer::trim_zeros(digits);
    proof {
        lemma_canonical_len(digits@, len as nat);
    }
    while digits.len() < len
        invariant
            digits.len() <= len,
            number(digits@) == number(old(digits)@),
        decreases len - digits.len(),
    {
        proof {
            lemma_number_push(digits@, Digit::Zero);
            assert(0 * pow10(digits@.len()) == 0) by (nonlinear_arith);
        }
        digits.push(Digit::Zero);
    }
}

} // verus!
