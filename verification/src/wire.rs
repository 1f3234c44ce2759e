//! Text on the wire: how a string is written between quotes and read back.
//!
//! A frame is one line of text, so a string inside it must not hold a raw
//! line break, quote or backslash. They are written as escape sequences: two
//! bytes for the quote, the backslash and the five control characters with a
//! letter of their own, six bytes (`\u00` and two hexadecimal digits) for
//! the other control characters. Every other byte stands for itself, which
//! leaves UTF-8 sequences as they are. The reader accepts exactly what the
//! writer produces.

use vstd::prelude::*;

verus! {

// The bytes that the grammar of strings speaks of, by their ASCII codes.
pub const QUOTE: u8 = 0x22;
pub const BACKSLASH: u8 = 0x5c;
pub const NEWLINE: u8 = 0x0a;
pub const SPACE: u8 = 0x20;
pub const DIGIT_ZERO: u8 = 0x30;
pub const DIGIT_NINE: u8 = 0x39;
pub const LETTER_A: u8 = 0x61;
pub const LETTER_B: u8 = 0x62;
pub const LETTER_F: u8 = 0x66;
pub const LETTER_N: u8 = 0x6e;
pub const LETTER_R: u8 = 0x72;
pub const LETTER_T: u8 = 0x74;
pub const LETTER_U: u8 = 0x75;

/// The byte that follows the backslash in the two-byte escape of `b`, for
/// the bytes that have one.
pub open spec fn short_escape(b: u8) -> Option<u8> {
    if b == QUOTE {
        Some(QUOTE)
    } else if b == BACKSLASH {
        Some(BACKSLASH)
    } else if b == 0x08 {
        Some(LETTER_B)
    } else if b == 0x0c {
        Some(LETTER_F)
    } else if b == 0x0a {
        Some(LETTER_N)
    } else if b == 0x0d {
        Some(LETTER_R)
    } else if b == 0x09 {
        Some(LETTER_T)
    } else {
        None
    }
}

/// The byte that a backslash followed by `c` stands for.
pub open spec fn short_unescape(c: u8) -> Option<u8> {
    if c == QUOTE {
        Some(QUOTE)
    } else if c == BACKSLASH {
        Some(BACKSLASH)
    } else if c == LETTER_B {
        Some(0x08u8)
    } else if c == LETTER_F {
        Some(0x0cu8)
    } else if c == LETTER_N {
        Some(0x0au8)
    } else if c == LETTER_R {
        Some(0x0du8)
    } else if c == LETTER_T {
        Some(0x09u8)
    } else {
        None
    }
}

/// The lower-case hexadecimal digit for `v`, which is below 16.
pub open spec fn hex_digit(v: int) -> u8 {
    if v < 10 {
        (DIGIT_ZERO + v) as u8
    } else {
        (LETTER_A + v - 10) as u8
    }
}

/// What a lower-case hexadecimal digit is worth.
pub open spec fn hex_value(c: u8) -> Option<int> {
    if DIGIT_ZERO <= c <= DIGIT_NINE {
        Some(c - DIGIT_ZERO)
    } else if LETTER_A <= c <= LETTER_F {
        Some(c - LETTER_A + 10)
    } else {
        None
    }
}

/// How one byte of a string is written.
pub open spec fn escape_byte(b: u8) -> Seq<u8> {
    match short_escape(b) {
        Some(c) => seq![BACKSLASH, c],
        None => if b < SPACE {
            seq![BACKSLASH, LETTER_U, DIGIT_ZERO, DIGIT_ZERO, hex_digit(b as int / 16), hex_digit(b as int % 16)]
        } else {
            seq![b]
        },
    }
}

/// How the bytes of a string are written, one after the other.
pub open spec fn escaped(s: Seq<u8>) -> Seq<u8>
    decreases s.len(),
{
    if s.len() == 0 {
        Seq::empty()
    } else {
        escape_byte(s[0]) + escaped(s.subrange(1, s.len() as int))
    }
}

/// A string as it stands in a frame: escaped, between quotes.
pub open spec fn quoted(s: Seq<u8>) -> Seq<u8> {
    seq![QUOTE] + escaped(s) + seq![QUOTE]
}

/// The byte that is written at `i`, and where the next one starts. `None`
/// where no byte of a string can start: at a quote, at a raw control
/// character, at an escape sequence that the writer never produces.
pub open spec fn unescape_at(t: Seq<u8>, i: int) -> Option<(u8, int)> {
    if !(0 <= i < t.len()) {
        None
    } else if t[i] == BACKSLASH {
        if i + 1 < t.len() && short_unescape(t[i + 1]) is Some {
            Some((short_unescape(t[i + 1])->Some_0, i + 2))
        } else if i + 5 < t.len() && t[i + 1] == LETTER_U && t[i + 2] == DIGIT_ZERO && t[i + 3]
            == DIGIT_ZERO && hex_value(t[i + 4]) is Some && hex_value(t[i + 5]) is Some {
            let v = hex_value(t[i + 4])->Some_0 * 16 + hex_value(t[i + 5])->Some_0;
            if v < SPACE && short_escape(v as u8) is None {
                Some((v as u8, i + 6))
            } else {
                None
            }
        } else {
            None
        }
    } else if t[i] == QUOTE || t[i] < SPACE {
        None
    } else {
        Some((t[i], i + 1))
    }
}

/// The content of the string whose first byte, after the opening quote, is
/// at `i`, and the position after its closing quote.
pub open spec fn unquote_content(t: Seq<u8>, i: int) -> Option<(Seq<u8>, int)>
    decreases t.len() - i,
{
    if !(0 <= i < t.len()) {
        None
    } else if t[i] == QUOTE {
        Some((Seq::empty(), i + 1))
    } else {
        match unescape_at(t, i) {
            Some((b, j)) => if j > i {
                prepend(seq![b], unquote_content(t, j))
            } else {
                None
            },
            None => None,
        }
    }
}

/// Puts `head` before the string that was read.
pub open spec fn prepend(head: Seq<u8>, read: Option<(Seq<u8>, int)>) -> Option<(Seq<u8>, int)> {
    match read {
        Some((rest, end)) => Some((head + rest, end)),
        None => None,
    }
}

/// The string that stands at `i`, and the position after its closing quote.
pub open spec fn unquote_at(t: Seq<u8>, i: int) -> Option<(Seq<u8>, int)> {
    if 0 <= i < t.len() && t[i] == QUOTE {
        unquote_content(t, i + 1)
    } else {
        None
    }
}

/// No byte below the space, that is no control character: what lets a frame
/// end at the first line break.
pub open spec fn printable(t: Seq<u8>) -> bool {
    forall|k: int| 0 <= k < t.len() ==> #[trigger] t[k] >= SPACE
}

/// What is written for a byte is one to six bytes without a control
/// character, and does not start with a quote.
proof fn lemma_escape_byte_shape(b: u8)
    ensures
        1 <= escape_byte(b).len() <= 6,
        escape_byte(b)[0] != QUOTE,
        printable(escape_byte(b)),
{
}

/// Reading what was written for one byte gives that byte.
pub proof fn lemma_unescape_escape(t: Seq<u8>, i: int, b: u8)
    requires
        0 <= i,
        i + escape_byte(b).len() <= t.len(),
        t.subrange(i, i + escape_byte(b).len()) == escape_byte(b),
    ensures
        unescape_at(t, i) == Some((b, i + escape_byte(b).len())),
{
    let e = escape_byte(b);
    assert forall|k: int| 0 <= k < e.len() implies t[i + k] == e[k] by {
        assert(t.subrange(i, i + e.len())[k] == t[i + k]);
    }
    assert(t[i] == e[0]);
    if short_escape(b) is Some {
        assert(t[i + 1] == e[1]);
    } else if b < SPACE {
        assert(t[i + 1] == e[1]);
        assert(t[i + 2] == e[2]);
        assert(t[i + 3] == e[3]);
        assert(t[i + 4] == e[4]);
        assert(t[i + 5] == e[5]);
        assert(short_unescape(LETTER_U) is None);
        let h = b as int / 16;
        let l = b as int % 16;
        assert(hex_value(hex_digit(h)) == Some(h));
        assert(hex_value(hex_digit(l)) == Some(l));
        assert(h * 16 + l == b);
    }
}

/// What was read for one byte is what is written for it.
pub proof fn lemma_escape_unescape(t: Seq<u8>, i: int)
    requires
        unescape_at(t, i) is Some,
    ensures
        ({
            let (b, j) = unescape_at(t, i)->Some_0;
            &&& 0 <= i < j <= t.len()
            &&& t.subrange(i, j) == escape_byte(b)
            &&& t[i] != QUOTE
        }),
{
    let (b, j) = unescape_at(t, i)->Some_0;
    if t[i] == BACKSLASH {
        if i + 1 < t.len() && short_unescape(t[i + 1]) is Some {
            assert(short_escape(b) == Some(t[i + 1]));
            assert(t.subrange(i, j) =~= escape_byte(b));
        } else {
            let h = hex_value(t[i + 4])->Some_0;
            let l = hex_value(t[i + 5])->Some_0;
            assert(b as int / 16 == h && b as int % 16 == l);
            assert(hex_digit(h) == t[i + 4]);
            assert(hex_digit(l) == t[i + 5]);
            assert(t.subrange(i, j) =~= escape_byte(b));
        }
    } else {
        assert(t.subrange(i, j) =~= escape_byte(b));
    }
}

/// Writing a string byte by byte: what is written for one more byte comes
/// behind what was written so far.
proof fn lemma_escaped_push(s: Seq<u8>, b: u8)
    ensures
        escaped(s.push(b)) == escaped(s) + escape_byte(b),
    decreases s.len(),
{
    let sb = s.push(b);
    if s.len() == 0 {
        assert(sb.subrange(1, sb.len() as int) =~= Seq::<u8>::empty());
        assert(escaped(sb) =~= escape_byte(b) + escaped(Seq::<u8>::empty()));
        assert(escaped(s) + escape_byte(b) =~= escape_byte(b));
    } else {
        let rest = s.subrange(1, s.len() as int);
        assert(sb.subrange(1, sb.len() as int) =~= rest.push(b));
        lemma_escaped_push(rest, b);
        assert(escaped(sb) =~= escape_byte(s[0]) + (escaped(rest) + escape_byte(b)));
        assert(escaped(s) + escape_byte(b) =~= escape_byte(s[0]) + escaped(rest) + escape_byte(b));
    }
}

/// An escaped string holds no control character.
proof fn lemma_escaped_printable(s: Seq<u8>)
    ensures
        printable(escaped(s)),
    decreases s.len(),
{
    if s.len() > 0 {
        lemma_escape_byte_shape(s[0]);
        lemma_escaped_printable(s.subrange(1, s.len() as int));
        let e = escape_byte(s[0]);
        let r = escaped(s.subrange(1, s.len() as int));
        assert forall|k: int| 0 <= k < escaped(s).len() implies #[trigger] escaped(s)[k] >= SPACE by {
            if k < e.len() {
                assert(escaped(s)[k] == e[k]);
            } else {
                assert(escaped(s)[k] == r[k - e.len()]);
            }
        }
    }
}

/// A string between its quotes holds no control character.
pub proof fn lemma_quoted_printable(s: Seq<u8>)
    ensures
        printable(quoted(s)),
        quoted(s).len() == escaped(s).len() + 2,
{
    lemma_escaped_printable(s);
    let q = quoted(s);
    assert forall|k: int| 0 <= k < q.len() implies #[trigger] q[k] >= SPACE by {
        if 1 <= k < q.len() - 1 {
            assert(q[k] == escaped(s)[k - 1]);
        }
    }
}

/// Reading the content that was written for `s`, up to the closing quote,
/// gives `s`.
pub proof fn lemma_unquote_escaped(t: Seq<u8>, i: int, s: Seq<u8>)
    requires
        0 <= i,
        i + escaped(s).len() < t.len(),
        t.subrange(i, i + escaped(s).len()) == escaped(s),
        t[i + escaped(s).len()] == QUOTE,
    ensures
        unquote_content(t, i) == Some((s, i + escaped(s).len() + 1)),
    decreases s.len(),
{
    if s.len() > 0 {
        let e = escape_byte(s[0]);
        let rest = s.subrange(1, s.len() as int);
        let n = escaped(s).len() as int;
        lemma_escape_byte_shape(s[0]);
        assert(t.subrange(i, i + e.len()) =~= e) by {
            assert forall|k: int| 0 <= k < e.len() implies t.subrange(i, i + e.len())[k] == e[k] by {
                assert(t.subrange(i, i + n)[k] == escaped(s)[k]);
            }
        }
        lemma_unescape_escape(t, i, s[0]);
        assert(t[i] == e[0]) by {
            assert(t.subrange(i, i + e.len())[0] == t[i]);
        }
        let j = i + e.len();
        assert(t.subrange(j, j + escaped(rest).len()) =~= escaped(rest)) by {
            assert forall|k: int| 0 <= k < escaped(rest).len() implies t.subrange(
                j,
                j + escaped(rest).len(),
            )[k] == escaped(rest)[k] by {
                assert(t.subrange(i, i + n)[e.len() + k] == escaped(s)[e.len() + k]);
            }
        }
        lemma_unquote_escaped(t, j, rest);
        assert(seq![s[0]] + rest =~= s);
    }
}

/// What was read as a string's content is what is written for it, and a
/// quote closes it.
pub proof fn lemma_escaped_unquote(t: Seq<u8>, i: int)
    requires
        unquote_content(t, i) is Some,
    ensures
        ({
            let (s, end) = unquote_content(t, i)->Some_0;
            &&& 0 <= i < end <= t.len()
            &&& t[end - 1] == QUOTE
            &&& t.subrange(i, end - 1) == escaped(s)
        }),
    decreases t.len() - i,
{
    let (s, end) = unquote_content(t, i)->Some_0;
    if t[i] == QUOTE {
        assert(t.subrange(i, end - 1) =~= escaped(s));
    } else {
        let (b, j) = unescape_at(t, i)->Some_0;
        lemma_escape_unescape(t, i);
        lemma_escaped_unquote(t, j);
        let (rest, end2) = unquote_content(t, j)->Some_0;
        assert(end2 == end);
        assert(s == seq![b] + rest);
        assert(s.subrange(1, s.len() as int) =~= rest);
        assert(s[0] == b);
        assert(t.subrange(i, end - 1) =~= t.subrange(i, j) + t.subrange(j, end - 1));
    }
}

/// Reading a written string gives it back, whatever stands around it.
pub proof fn lemma_unquote_quoted(t: Seq<u8>, i: int, s: Seq<u8>)
    requires
        0 <= i,
        i + quoted(s).len() <= t.len(),
        t.subrange(i, i + quoted(s).len()) == quoted(s),
    ensures
        unquote_at(t, i) == Some((s, i + quoted(s).len())),
{
    let q = quoted(s);
    let n = escaped(s).len() as int;
    assert(q.len() == n + 2);
    assert(t[i] == QUOTE) by {
        assert(t.subrange(i, i + q.len())[0] == q[0]);
    }
    assert(t[i + 1 + n] == QUOTE) by {
        assert(t.subrange(i, i + q.len())[n + 1] == q[n + 1]);
    }
    assert(t.subrange(i + 1, i + 1 + n) =~= escaped(s)) by {
        assert forall|k: int| 0 <= k < n implies t.subrange(i + 1, i + 1 + n)[k] == escaped(s)[k] by {
            assert(t.subrange(i, i + q.len())[k + 1] == q[k + 1]);
        }
    }
    lemma_unquote_escaped(t, i + 1, s);
}

/// What was read as a string is what is written for it.
pub proof fn lemma_quoted_unquote(t: Seq<u8>, i: int)
    requires
        unquote_at(t, i) is Some,
    ensures
        ({
            let (s, end) = unquote_at(t, i)->Some_0;
            &&& 0 <= i < end <= t.len()
            &&& t.subrange(i, end) == quoted(s)
        }),
{
    let (s, end) = unquote_at(t, i)->Some_0;
    lemma_escaped_unquote(t, i + 1);
    assert(t.subrange(i, end) =~= seq![QUOTE] + t.subrange(i + 1, end - 1) + seq![QUOTE]);
}

/// The hexadecimal digit for `v`.
fn hex_digit_of(v: u8) -> (c: u8)
    requires
        v < 16,
    ensures
        c == hex_digit(v as int),
{
    if v < 10 {
        DIGIT_ZERO + v
    } else {
        LETTER_A + (v - 10)
    }
}

/// What the hexadecimal digit `c` is worth.
fn hex_value_of(c: u8) -> (v: Option<u8>)
    ensures
        match v {
            Some(x) => hex_value(c) == Some(x as int) && x < 16,
            None => hex_value(c) is None,
        },
{
    if DIGIT_ZERO <= c && c <= DIGIT_NINE {
        Some(c - DIGIT_ZERO)
    } else if LETTER_A <= c && c <= LETTER_F {
        Some(c - LETTER_A + 10)
    } else {
        None
    }
}

/// The letter of the two-byte escape of `b`.
fn short_escape_of(b: u8) -> (c: Option<u8>)
    ensures
        c == short_escape(b),
{
    if b == QUOTE {
        Some(QUOTE)
    } else if b == BACKSLASH {
        Some(BACKSLASH)
    } else if b == 0x08 {
        Some(LETTER_B)
    } else if b == 0x0c {
        Some(LETTER_F)
    } else if b == 0x0a {
        Some(LETTER_N)
    } else if b == 0x0d {
        Some(LETTER_R)
    } else if b == 0x09 {
        Some(LETTER_T)
    } else {
        None
    }
}

/// The byte that a backslash and `c` stand for.
fn short_unescape_of(c: u8) -> (b: Option<u8>)
    ensures
        b == short_unescape(c),
{
    if c == QUOTE {
        Some(QUOTE)
    } else if c == BACKSLASH {
        Some(BACKSLASH)
    } else if c == LETTER_B {
        Some(0x08)
    } else if c == LETTER_F {
        Some(0x0c)
    } else if c == LETTER_N {
        Some(0x0a)
    } else if c == LETTER_R {
        Some(0x0d)
    } else if c == LETTER_T {
        Some(0x09)
    } else {
        None
    }
}

/// Appends the bytes of `text` to `out`.
pub fn write_bytes(out: &mut Vec<u8>, text: &[u8])
    ensures
        final(out)@ == old(out)@ + text@,
{
    let mut i: usize = 0;
    while i < text.len()
        invariant
            i <= text.len(),
            out@ == old(out)@ + text@.subrange(0, i as int),
        decreases text.len() - i,
    {
        out.push(text[i]);
        i = i + 1;
        assert(out@ =~= old(out)@ + text@.subrange(0, i as int));
    }
    assert(text@.subrange(0, i as int) =~= text@);
}

/// Appends one byte of a string to `out`, escaped where it has to be.
fn write_escaped_byte(out: &mut Vec<u8>, b: u8)
    ensures
        final(out)@ == old(out)@ + escape_byte(b),
{
    match short_escape_of(b) {
        Some(c) => {
            out.push(BACKSLASH);
            out.push(c);
        },
        None => {
            if b < SPACE {
                out.push(BACKSLASH);
                out.push(LETTER_U);
                out.push(DIGIT_ZERO);
                out.push(DIGIT_ZERO);
                out.push(hex_digit_of(b / 16));
                out.push(hex_digit_of(b % 16));
            } else {
                out.push(b);
            }
        },
    }
    assert(out@ =~= old(out)@ + escape_byte(b));
}

/// Appends `s` to `out` as a string of a frame: escaped, between quotes.
pub fn write_quoted(out: &mut Vec<u8>, s: &[u8])
    ensures
        final(out)@ == old(out)@ + quoted(s@),
{
    out.push(QUOTE);
    let mut i: usize = 0;
    while i < s.len()
        invariant
            i <= s.len(),
            out@ == old(out)@ + seq![QUOTE] + escaped(s@.subrange(0, i as int)),
        decreases s.len() - i,
    {
        proof {
            lemma_escaped_push(s@.subrange(0, i as int), s@[i as int]);
            assert(s@.subrange(0, i as int).push(s@[i as int]) =~= s@.subrange(0, i + 1));
        }
        write_escaped_byte(out, s[i]);
        i = i + 1;
        assert(out@ =~= old(out)@ + seq![QUOTE] + escaped(s@.subrange(0, i as int)));
    }
    assert(s@.subrange(0, i as int) =~= s@);
    out.push(QUOTE);
    assert(out@ =~= old(out)@ + quoted(s@));
}

/// Reads the byte of a string that is written at `i`.
fn read_escaped_byte(input: &[u8], i: usize) -> (r: Option<(u8, usize)>)
    ensures
        match r {
            Some((b, j)) => unescape_at(input@, i as int) == Some((b, j as int)) && i < j
                <= input.len(),
            None => unescape_at(input@, i as int) is None,
        },
{
    let n: usize = input.len();
    if i >= n {
        return None;
    }
    let first: u8 = input[i];
    if first == BACKSLASH {
        if n - i < 2 {
            return None;
        }
        let letter: u8 = input[i + 1];
        match short_unescape_of(letter) {
            Some(b) => Some((b, i + 2)),
            None => {
                if n - i < 6 || letter != LETTER_U || input[i + 2] != DIGIT_ZERO || input[i + 3]
                    != DIGIT_ZERO {
                    return None;
                }
                match (hex_value_of(input[i + 4]), hex_value_of(input[i + 5])) {
                    (Some(h), Some(l)) => {
                        if h >= 2 {
                            return None;
                        }
                        let v: u8 = h * 16 + l;
                        if short_escape_of(v).is_some() {
                            None
                        } else {
                            Some((v, i + 6))
                        }
                    },
                    _ => None,
                }
            },
        }
    } else if first == QUOTE || first < SPACE {
        None
    } else {
        Some((first, i + 1))
    }
}

/// Reads the string that starts at `pos` with its opening quote. Gives its
/// content and the position after its closing quote.
pub fn read_quoted(input: &[u8], pos: usize) -> (r: Option<(Vec<u8>, usize)>)
    ensures
        match r {
            Some((s, end)) => unquote_at(input@, pos as int) == Some((s@, end as int)) && pos
                < end <= input.len(),
            None => unquote_at(input@, pos as int) is None,
        },
{
    let n: usize = input.len();
    if pos >= n || input[pos] != QUOTE {
        return None;
    }
    let mut content: Vec<u8> = Vec::new();
    let mut i: usize = pos + 1;
    loop
        invariant
            n == input.len(),
            pos < i <= n,
            unquote_at(input@, pos as int) == prepend(content@, unquote_content(input@, i as int)),
        decreases n - i,
    {
        if i >= n {
            return None;
        }
        if input[i] == QUOTE {
            assert(content@ + Seq::<u8>::empty() =~= content@);
            return Some((content, i + 1));
        }
        match read_escaped_byte(input, i) {
            None => {
                return None;
            },
            Some((b, j)) => {
                proof {
                    let read = unquote_content(input@, j as int);
                    if read is Some {
                        let (rest, end) = read->Some_0;
                        assert(content@ + (seq![b] + rest) =~= content@.push(b) + rest);
                    }
                }
                content.push(b);
                i = j;
            },
        }
    }
}

/// Tells whether two byte strings are the same.
pub fn same_bytes(a: &[u8], b: &[u8]) -> (same: bool)
    ensures
        same == (a@ == b@),
{
    if a.len() != b.len() {
        return false;
    }
    let mut i: usize = 0;
    while i < a.len()
        invariant
            a.len() == b.len(),
            i <= a.len(),
            a@.subrange(0, i as int) == b@.subrange(0, i as int),
        decreases a.len() - i,
    {
        if a[i] != b[i] {
            assert(a@[i as int] != b@[i as int]);
            return false;
        }
        i = i + 1;
        assert(a@.subrange(0, i as int) =~= a@.subrange(0, i - 1).push(a@[i - 1]));
        assert(b@.subrange(0, i as int) =~= b@.subrange(0, i - 1).push(b@[i - 1]));
    }
    assert(a@.subrange(0, i as int) =~= a@);
    assert(b@.subrange(0, i as int) =~= b@);
    true
}

/// Tells whether two texts are the same.
pub fn same_text(a: &str, b: &str) -> (same: bool)
    ensures
        same == (a@ == b@),
{
    proof {
        vstd::utf8::encode_utf8_decode_utf8(a@);
        vstd::utf8::encode_utf8_decode_utf8(b@);
    }
    same_bytes(a.as_bytes(), b.as_bytes())
}

/// The text that `bytes` encode in UTF-8, where they encode one. This is
/// `String::from_utf8` of the standard library, which checks the bytes and
/// returns an error when they are not UTF-8; the bytes of the text it
/// returns are the ones it was given.
#[verifier::external_body]
pub(crate) fn text_from_utf8(bytes: Vec<u8>) -> (r: Option<String>)
    ensures
        r.is_some() == vstd::utf8::valid_utf8(bytes@),
        r matches Some(text) ==> text@ == vstd::utf8::decode_utf8(bytes@),
{
    String::from_utf8(bytes).ok()
}

} // verus!
