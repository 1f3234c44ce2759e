//! Numbers as they travel on the wire.
//!
//! The protocol carries finite real numbers in decimal or exponential text
//! form. A [`Number`] keeps the literal itself, so a value read from a frame
//! is written back with exactly the digits it came with.

use vstd::prelude::*;

verus! {

// The bytes that the grammar of numbers speaks of, by their ASCII codes.
pub const MINUS: u8 = 0x2d;
pub const PLUS: u8 = 0x2b;
pub const DOT: u8 = 0x2e;
pub const ZERO: u8 = 0x30;
pub const NINE: u8 = 0x39;
pub const UPPER_E: u8 = 0x45;
pub const LOWER_E: u8 = 0x65;

/// A decimal digit.
pub open spec fn is_digit(b: u8) -> bool {
    ZERO <= b <= NINE
}

/// The first position at or after `from` that holds no digit.
pub open spec fn digits_end(s: Seq<u8>, from: int) -> int
    decreases s.len() - from,
{
    if 0 <= from < s.len() && is_digit(s[from]) {
        digits_end(s, from + 1)
    } else {
        from
    }
}

/// Where the integer part starts: after an optional minus sign.
pub open spec fn int_start(s: Seq<u8>) -> int {
    if s.len() > 0 && s[0] == MINUS {
        1
    } else {
        0
    }
}

/// Whether a dot follows the integer part.
pub open spec fn has_fraction(s: Seq<u8>) -> bool {
    let b = digits_end(s, int_start(s));
    b < s.len() && s[b] == DOT
}

/// Where the fraction ends; where the integer part ends if there is none.
pub open spec fn fraction_end(s: Seq<u8>) -> int {
    let b = digits_end(s, int_start(s));
    if has_fraction(s) {
        digits_end(s, b + 1)
    } else {
        b
    }
}

/// Whether the letter of an exponent follows the fraction.
pub open spec fn has_exponent(s: Seq<u8>) -> bool {
    let c = fraction_end(s);
    c < s.len() && (s[c] == LOWER_E || s[c] == UPPER_E)
}

/// Where the digits of the exponent start: after the letter and an optional sign.
pub open spec fn exponent_digits_start(s: Seq<u8>) -> int {
    let c = fraction_end(s);
    if c + 1 < s.len() && (s[c + 1] == PLUS || s[c + 1] == MINUS) {
        c + 2
    } else {
        c + 1
    }
}

/// A finite number in decimal or exponential form: an optional minus sign, an
/// integer part without superfluous leading zeros, an optional fraction and
/// an optional exponent, each with at least one digit, and nothing else.
pub open spec fn is_number_literal(s: Seq<u8>) -> bool {
    let a = int_start(s);
    let b = digits_end(s, a);
    let c = fraction_end(s);
    &&& b > a
    &&& (s[a] == ZERO ==> b == a + 1)
    &&& (has_fraction(s) ==> c > b + 1)
    &&& if has_exponent(s) {
        let e = exponent_digits_start(s);
        digits_end(s, e) > e && digits_end(s, e) == s.len()
    } else {
        c == s.len()
    }
}

/// A run of digits: where it ends, that it holds digits only, and that no
/// digit follows it.
pub proof fn lemma_digits_end_bounds(s: Seq<u8>, from: int)
    requires
        0 <= from <= s.len(),
    ensures
        from <= digits_end(s, from) <= s.len(),
        forall|k: int| from <= k < digits_end(s, from) ==> is_digit(#[trigger] s[k]),
        digits_end(s, from) < s.len() ==> !is_digit(s[digits_end(s, from)]),
    decreases s.len() - from,
{
    if from < s.len() && is_digit(s[from]) {
        lemma_digits_end_bounds(s, from + 1);
    }
}

/// Skips the digits that start at `from`.
fn skip_digits(s: &[u8], from: usize) -> (end: usize)
    requires
        from <= s.len(),
    ensures
        end == digits_end(s@, from as int),
        from <= end <= s.len(),
{
    let mut i: usize = from;
    while i < s.len() && ZERO <= s[i] && s[i] <= NINE
        invariant
            from <= i <= s.len(),
            digits_end(s@, from as int) == digits_end(s@, i as int),
        decreases s.len() - i,
    {
        i = i + 1;
    }
    i
}

/// Tells whether `s` is a number of the protocol.
pub fn is_number(s: &[u8]) -> (ok: bool)
    ensures
        ok == is_number_literal(s@),
{
    let n: usize = s.len();
    let a: usize = if n > 0 && s[0] == MINUS { 1 } else { 0 };
    let b: usize = skip_digits(s, a);
    if b == a {
        return false;
    }
    if s[a] == ZERO && b != a + 1 {
        return false;
    }
    let mut c: usize = b;
    if b < n && s[b] == DOT {
        c = skip_digits(s, b + 1);
        if c == b + 1 {
            return false;
        }
    }
    if c < n && (s[c] == LOWER_E || s[c] == UPPER_E) {
        let e: usize = if c + 1 < n && (s[c + 1] == PLUS || s[c + 1] == MINUS) {
            c + 2
        } else {
            c + 1
        };
        let d: usize = skip_digits(s, e);
        d > e && d == n
    } else {
        c == n
    }
}

/// A number of the protocol, held as the literal that stands for it.
#[derive(Debug, PartialEq, Eq)]
pub struct Number {
    literal: Vec<u8>,
}

impl View for Number {
    type V = Seq<u8>;

    closed spec fn view(&self) -> Seq<u8> {
        self.literal@
    }
}

impl Number {
    #[verifier::type_invariant]
    spec fn valid(self) -> bool {
        is_number_literal(self.literal@)
    }

    /// Reads a literal. `None` when `text` is not a number of the protocol:
    /// `NaN` and the infinities have no literal.
    pub fn parse(text: &[u8]) -> (r: Option<Number>)
        ensures
            r.is_some() == is_number_literal(text@),
            r matches Some(n) ==> n@ == text@,
    {
        if is_number(text) {
            let literal = vstd::slice::slice_to_vec(text);
            Some(Number { literal })
        } else {
            None
        }
    }

    /// Recalls what holds of every number: its literal is one of the
    /// protocol.
    pub fn recall(&self)
        ensures
            is_number_literal(self@),
    {
        proof {
            use_type_invariant(self);
        }
    }

    /// The literal, as it is written into a frame.
    pub fn as_bytes(&self) -> (r: &[u8])
        ensures
            r@ == self@,
            is_number_literal(r@),
    {
        proof {
            use_type_invariant(self);
        }
        self.literal.as_slice()
    }
}

impl Clone for Number {
    fn clone(&self) -> (r: Self)
        ensures
            r@ == self@,
    {
        proof {
            use_type_invariant(self);
        }
        let literal = vstd::slice::slice_to_vec(self.literal.as_slice());
        Number { literal }
    }
}

} // verus!
