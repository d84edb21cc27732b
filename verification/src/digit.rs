//! One decimal digit, and arithmetic on digits with a carry.

use vstd::prelude::*;

verus! {

/// A decimal digit.
#[derive(Clone, Copy, Debug, PartialEq, Eq, PartialOrd, Ord, Structural)]
pub enum Digit {
    Zero,
    One,
    Two,
    Three,
    Four,
    Five,
    Six,
    Seven,
    Eight,
    Nine,
}

impl Digit {
    /// The number that the digit stands for.
    pub open spec fn value(self) -> nat {
        match self {
            Digit::Zero => 0,
            Digit::One => 1,
            Digit::Two => 2,
            Digit::Three => 3,
            Digit::Four => 4,
            Digit::Five => 5,
            Digit::Six => 6,
            Digit::Seven => 7,
            Digit::Eight => 8,
            Digit::Nine => 9,
        }
    }

    /// The character that the digit is written with.
    pub open spec fn character(self) -> char {
        match self {
            Digit::Zero => '0',
            Digit::One => '1',
            Digit::Two => '2',
            Digit::Three => '3',
            Digit::Four => '4',
            Digit::Five => '5',
            Digit::Six => '6',
            Digit::Seven => '7',
            Digit::Eight => '8',
            Digit::Nine => '9',
        }
    }

    /// The digit that stands for `digit`.
    pub fn new_unchecked(digit: usize) -> (d: Digit)
        requires
            digit < 10,
        ensures
            d.value() == digit,
    {
        if digit == 0 {
            Digit::Zero
        } else if digit == 1 {
            Digit::One
        } else if digit == 2 {
            Digit::Two
        } else if digit == 3 {
            Digit::Three
        } else if digit == 4 {
            Digit::Four
        } else if digit == 5 {
            Digit::Five
        } else if digit == 6 {
            Digit::Six
        } else if digit == 7 {
            Digit::Seven
        } else if digit == 8 {
            Digit::Eight
        } else {
            Digit::Nine
        }
    }

    /// The number that the digit stands for.
    pub fn to_usize(self) -> (n: usize)
        ensures
            n == self.value(),
            n < 10,
    {
        match self {
            Digit::Zero => 0,
            Digit::One => 1,
            Digit::Two => 2,
            Digit::Three => 3,
            Digit::Four => 4,
            Digit::Five => 5,
            Digit::Six => 6,
            Digit::Seven => 7,
            Digit::Eight => 8,
            Digit::Nine => 9,
        }
    }

    /// The character that the digit is written with.
    pub fn to_char(self) -> (c: char)
        ensures
            c == self.character(),
    {
        match self {
            Digit::Zero => '0',
            Digit::One => '1',
            Digit::Two => '2',
            Digit::Three => '3',
            Digit::Four => '4',
            Digit::Five => '5',
            Digit::Six => '6',
            Digit::Seven => '7',
            Digit::Eight => '8',
            Digit::Nine => '9',
        }
    }

    /// The digit that stands for `i`, if `i` is below ten.
    pub fn from_usize(i: usize) -> (r: Option<Digit>)
        ensures
            r is Some <==> i < 10,
            r is Some ==> r->0.value() == i,
    {
        if i < 10 {
            Some(Digit::new_unchecked(i))
        } else {
            None
        }
    }

    /// The digit written with `c`, if `c` is one of `0` to `9`.
    pub fn from_char(c: char) -> (r: Option<Digit>)
        ensures
            match r {
                Some(d) => d.character() == c,
                None => forall|d: Digit| d.character() != c,
            },
    {
        if c == '0' {
            Some(Digit::Zero)
        } else if c == '1' {
            Some(Digit::One)
        } else if c == '2' {
            Some(Digit::Two)
        } else if c == '3' {
            Some(Digit::Three)
        } else if c == '4' {
            Some(Digit::Four)
        } else if c == '5' {
            Some(Digit::Five)
        } else if c == '6' {
            Some(Digit::Six)
        } else if c == '7' {
            Some(Digit::Seven)
        } else if c == '8' {
            Some(Digit::Eight)
        } else if c == '9' {
            Some(Digit::Nine)
        } else {
            None
        }
    }

    /// The sum of two digits and a carry: the digit of the ones, and
    /// whether there is a ten.
    pub fn carrying_add(self, other: Digit, carry: bool) -> (r: (Digit, bool))
        ensures
            r.0.value() + (if r.1 {
                10nat
            } else {
                0nat
            }) == self.value() + other.value() + (if carry {
                1nat
            } else {
                0nat
            }),
    {
        let sum: usize = self.to_usize() + other.to_usize() + if carry {
            1
        } else {
            0
        };
        if sum > 9 {
            (Digit::new_unchecked(sum - 10), true)
        } else {
            (Digit::new_unchecked(sum), false)
        }
    }

    /// The product of two digits plus a carry: the digit of the ones, and
    /// the digit of the tens.
    pub fn carrying_mul(self, other: Digit, carry: Digit) -> (r: (Digit, Digit))
        ensures
            r.0.value() + 10 * r.1.value() == self.value() * other.value() + carry.value(),
    {
        let s: usize = self.to_usize();
        let o: usize = other.to_usize();
        assert(s * o <= 81) by (nonlinear_arith)
            requires
                s <= 9,
                o <= 9,
        ;
        let prod: usize = s * o + carry.to_usize();
        (Digit::new_unchecked(prod % 10), Digit::new_unchecked(prod / 10))
    }

    /// The difference of two digits: the digit of the ones, and whether a
    /// ten was borrowed.
    pub fn carrying_sub(self, other: Digit) -> (r: (Digit, bool))
        ensures
            r.1 == (self.value() < other.value()),
            r.0.value() + other.value() == self.value() + (if r.1 {
                10nat
            } else {
                0nat
            }),
    {
        let s: usize = self.to_usize();
        let o: usize = other.to_usize();
        if s < o {
            (Digit::new_unchecked(s + 10 - o), true)
        } else {
            (Digit::new_unchecked(s - o), false)
        }
    }

    /// Makes the digit the next one.
    pub fn increment(&mut self)
        requires
            old(self).value() < 9,
        ensures
            final(self).value() == old(self).value() + 1,
    {
        *self = Digit::new_unchecked(self.to_usize() + 1);
    }

    /// Makes the digit the one before it, and `Nine` if it is `Zero`.
    /// Returns whether it was `Zero`.
    pub fn wrapping_decrement(&mut self) -> (wrapped: bool)
        ensures
            wrapped == (old(self).value() == 0),
            final(self).value() == (if wrapped {
                9
            } else {
                old(self).value() - 1
            }),
    {
        let value: usize = self.to_usize();
        if value == 0 {
            *self = Digit::Nine;
            true
        } else {
            *self = Digit::new_unchecked(value - 1);
            false
        }
    }
}

} // verus!
