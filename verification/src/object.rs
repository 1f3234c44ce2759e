//! Mappings on the wire: names with a number each, between braces.
//!
//! An entry is a quoted name, a colon and a number; entries are separated
//! by commas, and nothing else stands between the braces. The reader
//! accepts exactly what the writer produces.

use crate::number::{
    digits_end, exponent_digits_start, fraction_end, has_exponent, has_fraction, int_start,
    is_digit, is_number, is_number_literal, lemma_digits_end_bounds, DOT, LOWER_E, MINUS, PLUS,
    UPPER_E, ZERO, NINE,
};
use crate::wire::{
    lemma_quoted_printable, lemma_quoted_unquote, lemma_unquote_quoted, printable, quoted,
    read_quoted, unquote_at, write_bytes, write_quoted, QUOTE, SPACE,
};
use vstd::prelude::*;

verus! {

// The bytes that the grammar of mappings speaks of, by their ASCII codes.
pub const COLON: u8 = 0x3a;
pub const COMMA: u8 = 0x2c;
pub const OPEN_BRACE: u8 = 0x7b;
pub const CLOSE_BRACE: u8 = 0x7d;

/// An entry as it stands on the wire: the bytes of its name, and the
/// literal of its number.
pub type RawEntry = (Seq<u8>, Seq<u8>);

/// Every value is a number of the protocol.
pub open spec fn raw_numeric(entries: Seq<RawEntry>) -> bool {
    forall|i: int| 0 <= i < entries.len() ==> is_number_literal(#[trigger] entries[i].1)
}

/// How an entry is written.
pub open spec fn entry_text(entry: RawEntry) -> Seq<u8> {
    quoted(entry.0) + seq![COLON] + entry.1
}

/// How entries are written: one after the other, with commas between them.
pub open spec fn entries_text(entries: Seq<RawEntry>) -> Seq<u8>
    decreases entries.len(),
{
    if entries.len() == 0 {
        Seq::empty()
    } else if entries.len() == 1 {
        entry_text(entries[0])
    } else {
        entry_text(entries[0]) + seq![COMMA] + entries_text(
            entries.subrange(1, entries.len() as int),
        )
    }
}

/// How a mapping is written.
pub open spec fn object_text(entries: Seq<RawEntry>) -> Seq<u8> {
    seq![OPEN_BRACE] + entries_text(entries) + seq![CLOSE_BRACE]
}

/// The bytes that a number can hold.
pub open spec fn number_byte(b: u8) -> bool {
    is_digit(b) || b == MINUS || b == PLUS || b == DOT || b == LOWER_E || b == UPPER_E
}

/// The first position at or after `from` that holds no byte of a number.
pub open spec fn number_end(t: Seq<u8>, from: int) -> int
    decreases t.len() - from,
{
    if 0 <= from < t.len() && number_byte(t[from]) {
        number_end(t, from + 1)
    } else {
        from
    }
}

/// The entry that is written at `i`, and the position after it.
pub open spec fn entry_at(t: Seq<u8>, i: int) -> Option<(RawEntry, int)> {
    match unquote_at(t, i) {
        Some((name, j)) => {
            let k = number_end(t, j + 1);
            if j < t.len() && t[j] == COLON && is_number_literal(t.subrange(j + 1, k)) {
                Some(((name, t.subrange(j + 1, k)), k))
            } else {
                None
            }
        },
        None => None,
    }
}

/// Puts `head` before the entries that were read.
pub open spec fn prepend_entries(
    head: Seq<RawEntry>,
    read: Option<(Seq<RawEntry>, int)>,
) -> Option<(Seq<RawEntry>, int)> {
    match read {
        Some((rest, end)) => Some((head + rest, end)),
        None => None,
    }
}

/// The entries that are written from `i` on, up to the closing brace, and
/// the position after that brace. There is at least one.
pub open spec fn entries_at(t: Seq<u8>, i: int) -> Option<(Seq<RawEntry>, int)>
    decreases t.len() - i,
{
    match entry_at(t, i) {
        Some((entry, j)) => if j <= i || j >= t.len() {
            None
        } else if t[j] == COMMA {
            prepend_entries(seq![entry], entries_at(t, j + 1))
        } else if t[j] == CLOSE_BRACE {
            Some((seq![entry], j + 1))
        } else {
            None
        },
        None => None,
    }
}

/// The mapping that is written at `i`, and the position after it.
pub open spec fn object_at(t: Seq<u8>, i: int) -> Option<(Seq<RawEntry>, int)> {
    if 0 <= i < t.len() && t[i] == OPEN_BRACE {
        if i + 1 < t.len() && t[i + 1] == CLOSE_BRACE {
            Some((Seq::empty(), i + 2))
        } else {
            entries_at(t, i + 1)
        }
    } else {
        None
    }
}

/// The entries of a vector as they stand on the wire.
pub open spec fn raw_entries(entries: Seq<(Vec<u8>, Vec<u8>)>) -> Seq<RawEntry> {
    Seq::new(entries.len(), |i: int| (entries[i].0@, entries[i].1@))
}

/// A number holds nothing but the bytes of numbers, and at least one.
pub proof fn lemma_number_bytes(s: Seq<u8>)
    requires
        is_number_literal(s),
    ensures
        s.len() > 0,
        forall|k: int| 0 <= k < s.len() ==> number_byte(#[trigger] s[k]),
        printable(s),
{
    let a = int_start(s);
    lemma_digits_end_bounds(s, a);
    let b = digits_end(s, a);
    if has_fraction(s) {
        lemma_digits_end_bounds(s, b + 1);
    }
    let c = fraction_end(s);
    if has_exponent(s) {
        lemma_digits_end_bounds(s, exponent_digits_start(s));
    }
    assert forall|k: int| 0 <= k < s.len() implies number_byte(#[trigger] s[k]) by {
        if k < a {
        } else if k < b {
        } else if k < c {
        } else if has_exponent(s) {
            let e = exponent_digits_start(s);
            if k < e {
            } else {
                assert(is_digit(s[k]));
            }
        }
    }
}

/// A run of number bytes: where it ends, that it holds such bytes only, and
/// that none follows it.
proof fn lemma_number_end_bounds(t: Seq<u8>, from: int)
    requires
        0 <= from <= t.len(),
    ensures
        from <= number_end(t, from) <= t.len(),
        forall|k: int| from <= k < number_end(t, from) ==> number_byte(#[trigger] t[k]),
        number_end(t, from) < t.len() ==> !number_byte(t[number_end(t, from)]),
    decreases t.len() - from,
{
    if from < t.len() && number_byte(t[from]) {
        lemma_number_end_bounds(t, from + 1);
    }
}

/// A run of number bytes ends where the first other byte stands.
pub proof fn lemma_number_end(t: Seq<u8>, from: int, n: int)
    requires
        0 <= from,
        0 <= n,
        from + n <= t.len(),
        forall|k: int| from <= k < from + n ==> number_byte(#[trigger] t[k]),
        from + n == t.len() || !number_byte(t[from + n]),
    ensures
        number_end(t, from) == from + n,
    decreases n,
{
    if n > 0 {
        assert(number_byte(t[from]));
        lemma_number_end(t, from + 1, n - 1);
    }
}

/// A written entry starts with a quote, is at least four bytes long and
/// holds no control character.
proof fn lemma_entry_text_shape(entry: RawEntry)
    requires
        is_number_literal(entry.1),
    ensures
        entry_text(entry).len() == quoted(entry.0).len() + 1 + entry.1.len(),
        entry_text(entry).len() >= 4,
        entry_text(entry)[0] == QUOTE,
        printable(entry_text(entry)),
{
    lemma_quoted_printable(entry.0);
    lemma_number_bytes(entry.1);
    let text = entry_text(entry);
    let q = quoted(entry.0);
    assert forall|k: int| 0 <= k < text.len() implies #[trigger] text[k] >= SPACE by {
        if k < q.len() {
            assert(text[k] == q[k]);
        } else if k == q.len() {
        } else {
            assert(text[k] == entry.1[k - q.len() - 1]);
        }
    }
}

/// Reading a written entry gives it back, where no byte of a number
/// follows it.
pub proof fn lemma_entry_at_text(t: Seq<u8>, i: int, entry: RawEntry)
    requires
        0 <= i,
        is_number_literal(entry.1),
        i + entry_text(entry).len() <= t.len(),
        t.subrange(i, i + entry_text(entry).len()) == entry_text(entry),
        i + entry_text(entry).len() == t.len() || !number_byte(t[i + entry_text(entry).len()]),
    ensures
        entry_at(t, i) == Some((entry, i + entry_text(entry).len())),
{
    let text = entry_text(entry);
    let q = quoted(entry.0);
    let n = entry.1.len() as int;
    lemma_entry_text_shape(entry);
    assert forall|k: int| 0 <= k < text.len() implies t[i + k] == text[k] by {
        assert(t.subrange(i, i + text.len())[k] == t[i + k]);
    }
    assert(t.subrange(i, i + q.len()) =~= q) by {
        assert forall|k: int| 0 <= k < q.len() implies t.subrange(i, i + q.len())[k] == q[k] by {
            assert(text[k] == q[k]);
        }
    }
    lemma_unquote_quoted(t, i, entry.0);
    let j = i + q.len();
    assert(t[j] == COLON) by {
        assert(text[q.len() as int] == COLON);
    }
    lemma_number_bytes(entry.1);
    assert forall|k: int| j + 1 <= k < j + 1 + n implies number_byte(#[trigger] t[k]) by {
        assert(t[k] == text[k - i]);
        assert(text[k - i] == entry.1[k - j - 1]);
    }
    lemma_number_end(t, j + 1, n);
    assert(t.subrange(j + 1, j + 1 + n) =~= entry.1) by {
        assert forall|k: int| 0 <= k < n implies t.subrange(j + 1, j + 1 + n)[k] == entry.1[k] by {
            assert(t[j + 1 + k] == text[q.len() + 1 + k]);
        }
    }
}

/// What was read as an entry is what is written for it.
pub proof fn lemma_text_entry_at(t: Seq<u8>, i: int)
    requires
        entry_at(t, i) is Some,
    ensures
        ({
            let (entry, end) = entry_at(t, i)->Some_0;
            &&& 0 <= i < end <= t.len()
            &&& is_number_literal(entry.1)
            &&& t.subrange(i, end) == entry_text(entry)
            &&& (end < t.len() ==> !number_byte(t[end]))
        }),
{
    let (entry, end) = entry_at(t, i)->Some_0;
    let (name, j) = unquote_at(t, i)->Some_0;
    lemma_quoted_unquote(t, i);
    lemma_number_end_bounds(t, j + 1);
    assert(t.subrange(i, end) =~= t.subrange(i, j) + seq![COLON] + t.subrange(j + 1, end));
}

/// Writing entries one by one: one more entry comes behind what was
/// written so far, after a comma unless it is the first.
pub proof fn lemma_entries_text_push(entries: Seq<RawEntry>, entry: RawEntry)
    ensures
        entries_text(entries.push(entry)) == if entries.len() == 0 {
            entry_text(entry)
        } else {
            entries_text(entries) + seq![COMMA] + entry_text(entry)
        },
    decreases entries.len(),
{
    let all = entries.push(entry);
    if entries.len() == 0 {
    } else {
        let rest = entries.subrange(1, entries.len() as int);
        assert(all.subrange(1, all.len() as int) =~= rest.push(entry));
        lemma_entries_text_push(rest, entry);
        if rest.len() == 0 {
            assert(entries_text(all) =~= entries_text(entries) + seq![COMMA] + entry_text(entry));
        } else {
            assert(entries_text(all) =~= entry_text(entries[0]) + seq![COMMA] + (entries_text(rest)
                + seq![COMMA] + entry_text(entry)));
            assert(entries_text(all) =~= entries_text(entries) + seq![COMMA] + entry_text(entry));
        }
    }
}

/// Written entries hold no control character, and start with a quote where
/// there are any.
proof fn lemma_entries_text_printable(entries: Seq<RawEntry>)
    requires
        raw_numeric(entries),
    ensures
        printable(entries_text(entries)),
        entries.len() > 0 ==> entries_text(entries).len() >= 4 && entries_text(entries)[0]
            == QUOTE,
    decreases entries.len(),
{
    if entries.len() == 0 {
    } else {
        lemma_entry_text_shape(entries[0]);
        if entries.len() > 1 {
            let rest = entries.subrange(1, entries.len() as int);
            assert(raw_numeric(rest)) by {
                assert forall|i: int| 0 <= i < rest.len() implies is_number_literal(
                    #[trigger] rest[i].1,
                ) by {
                    assert(rest[i] == entries[i + 1]);
                }
            }
            lemma_entries_text_printable(rest);
            let text = entries_text(entries);
            let first = entry_text(entries[0]);
            assert forall|k: int| 0 <= k < text.len() implies #[trigger] text[k] >= SPACE by {
                if k < first.len() {
                    assert(text[k] == first[k]);
                } else if k == first.len() {
                } else {
                    assert(text[k] == entries_text(rest)[k - first.len() - 1]);
                }
            }
            assert(text[0] == first[0]);
        }
    }
}

/// Reading written entries, up to the closing brace, gives them back.
pub proof fn lemma_entries_at_text(t: Seq<u8>, i: int, entries: Seq<RawEntry>)
    requires
        0 <= i,
        entries.len() > 0,
        raw_numeric(entries),
        i + entries_text(entries).len() < t.len(),
        t.subrange(i, i + entries_text(entries).len()) == entries_text(entries),
        t[i + entries_text(entries).len()] == CLOSE_BRACE,
    ensures
        entries_at(t, i) == Some((entries, i + entries_text(entries).len() + 1)),
    decreases entries.len(),
{
    let text = entries_text(entries);
    let first = entry_text(entries[0]);
    lemma_entry_text_shape(entries[0]);
    assert forall|k: int| 0 <= k < text.len() implies t[i + k] == text[k] by {
        assert(t.subrange(i, i + text.len())[k] == t[i + k]);
    }
    assert(t.subrange(i, i + first.len()) =~= first) by {
        assert forall|k: int| 0 <= k < first.len() implies t.subrange(i, i + first.len())[k]
            == first[k] by {
            assert(text[k] == first[k]);
        }
    }
    let j = i + first.len();
    if entries.len() == 1 {
        lemma_entry_at_text(t, i, entries[0]);
        assert(seq![entries[0]] =~= entries);
    } else {
        let rest = entries.subrange(1, entries.len() as int);
        assert(t[j] == COMMA) by {
            assert(text[first.len() as int] == COMMA);
        }
        lemma_entry_at_text(t, i, entries[0]);
        assert(raw_numeric(rest)) by {
            assert forall|k: int| 0 <= k < rest.len() implies is_number_literal(
                #[trigger] rest[k].1,
            ) by {
                assert(rest[k] == entries[k + 1]);
            }
        }
        let tail = entries_text(rest);
        assert(t.subrange(j + 1, j + 1 + tail.len()) =~= tail) by {
            assert forall|k: int| 0 <= k < tail.len() implies t.subrange(j + 1, j + 1 + tail.len())[k]
                == tail[k] by {
                assert(t[j + 1 + k] == text[first.len() + 1 + k]);
            }
        }
        lemma_entries_at_text(t, j + 1, rest);
        assert(seq![entries[0]] + rest =~= entries);
    }
}

/// What was read as entries is what is written for them, with the closing
/// brace behind.
pub proof fn lemma_text_entries_at(t: Seq<u8>, i: int)
    requires
        entries_at(t, i) is Some,
    ensures
        ({
            let (entries, end) = entries_at(t, i)->Some_0;
            &&& 0 <= i < end <= t.len()
            &&& entries.len() > 0
            &&& raw_numeric(entries)
            &&& t[end - 1] == CLOSE_BRACE
            &&& t.subrange(i, end - 1) == entries_text(entries)
        }),
    decreases t.len() - i,
{
    let (entries, end) = entries_at(t, i)->Some_0;
    let (entry, j) = entry_at(t, i)->Some_0;
    lemma_text_entry_at(t, i);
    if t[j] == COMMA {
        lemma_text_entries_at(t, j + 1);
        let (rest, end2) = entries_at(t, j + 1)->Some_0;
        assert(entries == seq![entry] + rest);
        assert(entries.subrange(1, entries.len() as int) =~= rest);
        assert(entries[0] == entry);
        assert(t.subrange(i, end - 1) =~= t.subrange(i, j) + seq![COMMA] + t.subrange(
            j + 1,
            end - 1,
        ));
    } else {
        assert(entries == seq![entry]);
        assert(entries[0] == entry);
        assert(t.subrange(i, end - 1) =~= t.subrange(i, j));
    }
}

/// Reading a written mapping gives it back, whatever stands around it.
pub proof fn lemma_object_at_text(t: Seq<u8>, i: int, entries: Seq<RawEntry>)
    requires
        0 <= i,
        raw_numeric(entries),
        i + object_text(entries).len() <= t.len(),
        t.subrange(i, i + object_text(entries).len()) == object_text(entries),
    ensures
        object_at(t, i) == Some((entries, i + object_text(entries).len())),
{
    let text = object_text(entries);
    let inner = entries_text(entries);
    let m = inner.len() as int;
    assert(text.len() == m + 2);
    assert forall|k: int| 0 <= k < text.len() implies t[i + k] == text[k] by {
        assert(t.subrange(i, i + text.len())[k] == t[i + k]);
    }
    assert(t[i] == text[0]);
    assert(t[i + 1 + m] == CLOSE_BRACE) by {
        assert(text[m + 1] == CLOSE_BRACE);
    }
    if entries.len() == 0 {
        assert(entries =~= Seq::<RawEntry>::empty());
    } else {
        lemma_entries_text_printable(entries);
        assert(t[i + 1] == QUOTE) by {
            assert(text[1] == inner[0]);
        }
        assert(t.subrange(i + 1, i + 1 + inner.len()) =~= inner) by {
            assert forall|k: int| 0 <= k < inner.len() implies t.subrange(
                i + 1,
                i + 1 + inner.len(),
            )[k] == inner[k] by {
                assert(t[i + 1 + k] == text[k + 1]);
            }
        }
        lemma_entries_at_text(t, i + 1, entries);
    }
}

/// What was read as a mapping is what is written for it.
pub proof fn lemma_text_object_at(t: Seq<u8>, i: int)
    requires
        object_at(t, i) is Some,
    ensures
        ({
            let (entries, end) = object_at(t, i)->Some_0;
            &&& 0 <= i < end <= t.len()
            &&& raw_numeric(entries)
            &&& t.subrange(i, end) == object_text(entries)
        }),
{
    let (entries, end) = object_at(t, i)->Some_0;
    if i + 1 < t.len() && t[i + 1] == CLOSE_BRACE {
        assert(t.subrange(i, end) =~= object_text(entries));
    } else {
        lemma_text_entries_at(t, i + 1);
        assert(t.subrange(i, end) =~= seq![OPEN_BRACE] + t.subrange(i + 1, end - 1)
            + seq![CLOSE_BRACE]);
    }
}

/// A written mapping holds no control character.
pub proof fn lemma_object_text_printable(entries: Seq<RawEntry>)
    requires
        raw_numeric(entries),
    ensures
        printable(object_text(entries)),
        object_text(entries).len() == entries_text(entries).len() + 2,
{
    lemma_entries_text_printable(entries);
    let text = object_text(entries);
    assert forall|k: int| 0 <= k < text.len() implies #[trigger] text[k] >= SPACE by {
        if 1 <= k < text.len() - 1 {
            assert(text[k] == entries_text(entries)[k - 1]);
        }
    }
}

/// Appends an entry to `out`.
pub fn write_entry(out: &mut Vec<u8>, name: &[u8], literal: &[u8])
    ensures
        final(out)@ == old(out)@ + entry_text((name@, literal@)),
{
    write_quoted(out, name);
    out.push(COLON);
    write_bytes(out, literal);
    assert(out@ =~= old(out)@ + entry_text((name@, literal@)));
}

/// Skips the bytes of a number that start at `from`.
fn skip_number(input: &[u8], from: usize) -> (end: usize)
    requires
        from <= input.len(),
    ensures
        end == number_end(input@, from as int),
        from <= end <= input.len(),
{
    let mut i: usize = from;
    while i < input.len() && (ZERO <= input[i] && input[i] <= NINE || input[i] == MINUS || input[i]
        == PLUS || input[i] == DOT || input[i] == LOWER_E || input[i] == UPPER_E)
        invariant
            from <= i <= input.len(),
            number_end(input@, from as int) == number_end(input@, i as int),
        decreases input.len() - i,
    {
        i = i + 1;
    }
    i
}

/// Reads the entry that starts at `pos`.
fn read_entry(input: &[u8], pos: usize) -> (r: Option<((Vec<u8>, Vec<u8>), usize)>)
    ensures
        match r {
            Some((entry, end)) => entry_at(input@, pos as int) == Some(
                ((entry.0@, entry.1@), end as int),
            ) && pos < end <= input.len(),
            None => entry_at(input@, pos as int) is None,
        },
{
    match read_quoted(input, pos) {
        None => None,
        Some((name, j)) => {
            if j >= input.len() || input[j] != COLON {
                return None;
            }
            let k: usize = skip_number(input, j + 1);
            let literal = vstd::slice::slice_subrange(input, j + 1, k);
            if !is_number(literal) {
                return None;
            }
            Some(((name, vstd::slice::slice_to_vec(literal)), k))
        },
    }
}

/// Reads the mapping that starts at `pos` with its opening brace. Gives
/// its entries and the position after its closing brace.
pub fn read_object(input: &[u8], pos: usize) -> (r: Option<(Vec<(Vec<u8>, Vec<u8>)>, usize)>)
    ensures
        match r {
            Some((entries, end)) => object_at(input@, pos as int) == Some(
                (raw_entries(entries@), end as int),
            ) && pos < end <= input.len(),
            None => object_at(input@, pos as int) is None,
        },
{
    let n: usize = input.len();
    if pos >= n || input[pos] != OPEN_BRACE {
        return None;
    }
    let mut entries: Vec<(Vec<u8>, Vec<u8>)> = Vec::new();
    if n - pos >= 2 && input[pos + 1] == CLOSE_BRACE {
        assert(raw_entries(entries@) =~= Seq::<RawEntry>::empty());
        return Some((entries, pos + 2));
    }
    let mut i: usize = pos + 1;
    assert(raw_entries(entries@) =~= Seq::<RawEntry>::empty());
    loop
        invariant
            n == input.len(),
            pos < i <= n,
            object_at(input@, pos as int) == prepend_entries(
                raw_entries(entries@),
                entries_at(input@, i as int),
            ),
        decreases n - i,
    {
        match read_entry(input, i) {
            None => {
                return None;
            },
            Some((entry, j)) => {
                if j >= n {
                    return None;
                }
                let ghost before = raw_entries(entries@);
                let ghost raw = (entry.0@, entry.1@);
                let next: u8 = input[j];
                if next == COMMA {
                    entries.push(entry);
                    proof {
                        assert(raw_entries(entries@) =~= before.push(raw));
                        let read = entries_at(input@, j + 1);
                        if read is Some {
                            let (rest, end) = read->Some_0;
                            assert(before + (seq![raw] + rest) =~= before.push(raw) + rest);
                        }
                    }
                    i = j + 1;
                } else if next == CLOSE_BRACE {
                    entries.push(entry);
                    proof {
                        assert(raw_entries(entries@) =~= before.push(raw));
                        assert(before + seq![raw] =~= before.push(raw));
                    }
                    return Some((entries, j + 1));
                } else {
                    return None;
                }
            },
        }
    }
}

} // verus!
