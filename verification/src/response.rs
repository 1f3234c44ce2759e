//! What the peer answers.

use crate::number::{is_number_literal, Number};
use crate::wire::same_text;
use itertools::Itertools;
use vstd::prelude::*;
use vstd::utf8::encode_utf8;

verus! {

/// One parameter as contracts speak of it: its name, and the literal of its
/// value.
pub type Entry = (Seq<char>, Seq<u8>);

/// No name occurs twice.
pub open spec fn distinct_names(entries: Seq<Entry>) -> bool {
    forall|i: int, j: int| 0 <= i < j < entries.len() ==> entries[i].0 != entries[j].0
}

/// Every value is a number of the protocol.
pub open spec fn numeric_values(entries: Seq<Entry>) -> bool {
    forall|i: int| 0 <= i < entries.len() ==> is_number_literal(#[trigger] entries[i].1)
}

/// Whether some entry has this name.
pub open spec fn has_name(entries: Seq<Entry>, name: Seq<char>) -> bool {
    exists|i: int| 0 <= i < entries.len() && #[trigger] entries[i].0 == name
}

/// Whether `a` comes before `b` in the order of byte strings: the first
/// byte in which they differ decides, and a string comes after every
/// string that it starts with.
pub open spec fn bytes_before(a: Seq<u8>, b: Seq<u8>) -> bool
    decreases a.len(),
{
    if b.len() == 0 {
        false
    } else if a.len() == 0 {
        true
    } else if a[0] != b[0] {
        a[0] < b[0]
    } else {
        bytes_before(a.subrange(1, a.len() as int), b.subrange(1, b.len() as int))
    }
}

/// The order of names: that of `String`, which goes by the bytes of the
/// text in UTF-8.
pub open spec fn name_before(a: Seq<char>, b: Seq<char>) -> bool {
    bytes_before(encode_utf8(a), encode_utf8(b))
}

/// No entry stands behind one that its name comes before.
pub open spec fn ascending(entries: Seq<Entry>) -> bool {
    forall|i: int, j: int|
        0 <= i < j < entries.len() ==> !name_before(
            (#[trigger] entries[j]).0,
            (#[trigger] entries[i]).0,
        )
}

/// The entries in the order of their names: `Itertools::sorted_by_key`
/// with the name as the key. It sorts by `slice::sort_by_key`, so what
/// comes out is what went in, in ascending order of the keys.
#[verifier::external_body]
fn sort_by_name(entries: Vec<(String, Number)>) -> (sorted: Vec<(String, Number)>)
    ensures
        entries_view(sorted@).to_multiset() == entries_view(entries@).to_multiset(),
        ascending(entries_view(sorted@)),
{
    entries.into_iter().sorted_by_key(|entry| entry.0.clone()).collect()
}

/// A mapping from parameter names to numbers, in the order in which the
/// entries were added. No name occurs twice.
#[derive(Debug, PartialEq, Eq)]
pub struct Parameters {
    entries: Vec<(String, Number)>,
}

impl View for Parameters {
    type V = Seq<Entry>;

    closed spec fn view(&self) -> Seq<Entry> {
        entries_view(self.entries@)
    }
}

/// The entries as contracts speak of them.
pub open spec fn entries_view(entries: Seq<(String, Number)>) -> Seq<Entry> {
    Seq::new(entries.len(), |i: int| (entries[i].0@, entries[i].1@))
}

impl Parameters {
    #[verifier::type_invariant]
    spec fn valid(self) -> bool {
        distinct_names(self@) && numeric_values(self@)
    }

    /// The empty mapping.
    pub fn new() -> (r: Parameters)
        ensures
            r@ == Seq::<Entry>::empty(),
    {
        let r = Parameters { entries: Vec::new() };
        assert(r@ =~= Seq::<Entry>::empty());
        r
    }

    /// The number of entries.
    pub fn len(&self) -> (n: usize)
        ensures
            n == self@.len(),
    {
        self.entries.len()
    }

    /// Where the entry with this name stands.
    pub fn position(&self, name: &str) -> (r: Option<usize>)
        ensures
            match r {
                Some(i) => i < self@.len() && self@[i as int].0 == name@,
                None => !has_name(self@, name@),
            },
    {
        let mut i: usize = 0;
        while i < self.entries.len()
            invariant
                i <= self.entries.len(),
                forall|k: int| 0 <= k < i ==> (#[trigger] self@[k]).0 != name@,
            decreases self.entries.len() - i,
        {
            if same_text(self.entries[i].0.as_str(), name) {
                return Some(i);
            }
            i = i + 1;
        }
        None
    }

    /// Adds an entry at the end, unless the name is already there: then
    /// nothing changes and the answer is `false`.
    pub fn insert(&mut self, name: String, value: Number) -> (added: bool)
        ensures
            added == !has_name(old(self)@, name@),
            added ==> final(self)@ == old(self)@.push((name@, value@)),
            !added ==> final(self)@ == old(self)@,
    {
        proof {
            use_type_invariant(&*self);
        }
        if self.position(name.as_str()).is_some() {
            return false;
        }
        let ghost before = self@;
        let ghost entry = (name@, value@);
        value.recall();
        let mut taken = Parameters::new();
        core::mem::swap(self, &mut taken);
        let mut entries = taken.entries;
        entries.push((name, value));
        assert(entries_view(entries@) =~= before.push(entry));
        *self = Parameters { entries };
        true
    }

    /// The name of the entry at `i`.
    pub fn name_at(&self, i: usize) -> (r: &String)
        requires
            i < self@.len(),
        ensures
            r@ == self@[i as int].0,
    {
        &self.entries[i].0
    }

    /// The value of the entry at `i`.
    pub fn value_at(&self, i: usize) -> (r: &Number)
        requires
            i < self@.len(),
        ensures
            r@ == self@[i as int].1,
    {
        &self.entries[i].1
    }

    /// The value that stands under `name`.
    pub fn get(&self, name: &str) -> (r: Option<&Number>)
        ensures
            match r {
                Some(n) => exists|i: int|
                    0 <= i < self@.len() && #[trigger] self@[i] == (name@, n@),
                None => !has_name(self@, name@),
            },
    {
        match self.position(name) {
            Some(i) => Some(&self.entries[i].1),
            None => None,
        }
    }

    /// The entries in the order of their names, as a table shows them.
    pub fn sorted(&self) -> (entries: Vec<(String, Number)>)
        ensures
            entries_view(entries@).to_multiset() == self@.to_multiset(),
            ascending(entries_view(entries@)),
    {
        let mut entries: Vec<(String, Number)> = Vec::new();
        let mut i: usize = 0;
        while i < self.entries.len()
            invariant
                i <= self.entries.len(),
                entries_view(entries@) == self@.subrange(0, i as int),
            decreases self.entries.len() - i,
        {
            let ghost before = entries_view(entries@);
            entries.push((self.entries[i].0.clone(), self.entries[i].1.clone()));
            assert(entries_view(entries@) =~= before.push(self@[i as int]));
            assert(before.push(self@[i as int]) =~= self@.subrange(0, i + 1));
            i = i + 1;
        }
        assert(self@.subrange(0, i as int) =~= self@);
        sort_by_name(entries)
    }

    /// Recalls what holds of every mapping: no name occurs twice, and every
    /// value is a number of the protocol.
    pub fn recall(&self)
        ensures
            distinct_names(self@),
            numeric_values(self@),
    {
        proof {
            use_type_invariant(self);
        }
    }
}

impl Clone for Parameters {
    fn clone(&self) -> (r: Self)
        ensures
            r@ == self@,
    {
        proof {
            use_type_invariant(self);
        }
        let mut entries: Vec<(String, Number)> = Vec::new();
        let mut i: usize = 0;
        while i < self.entries.len()
            invariant
                i <= self.entries.len(),
                entries@.len() == i,
                forall|k: int|
                    0 <= k < i ==> (#[trigger] entries@[k]).0@ == self.entries@[k].0@
                        && entries@[k].1@ == self.entries@[k].1@,
            decreases self.entries.len() - i,
        {
            entries.push((self.entries[i].0.clone(), self.entries[i].1.clone()));
            i = i + 1;
        }
        assert(entries_view(entries@) =~= self@);
        Parameters { entries }
    }
}

/// What the peer answers to a command.
#[derive(Debug, PartialEq, Eq)]
pub enum Response {
    /// The parameters of the peer with their values.
    Parameters(Parameters),
    /// The command was carried out.
    Done,
}

/// A response as contracts speak of it.
pub enum ResponseView {
    Parameters(Seq<Entry>),
    Done,
}

impl View for Response {
    type V = ResponseView;

    open spec fn view(&self) -> ResponseView {
        match self {
            Response::Parameters(p) => ResponseView::Parameters(p@),
            Response::Done => ResponseView::Done,
        }
    }
}

impl ResponseView {
    /// What every response satisfies: in a mapping no name occurs twice, and
    /// every value is a number of the protocol.
    pub open spec fn wf(self) -> bool {
        match self {
            ResponseView::Parameters(entries) => distinct_names(entries) && numeric_values(entries),
            ResponseView::Done => true,
        }
    }
}

impl Clone for Response {
    fn clone(&self) -> (r: Self)
        ensures
            r@ == self@,
    {
        match self {
            Response::Parameters(p) => Response::Parameters(p.clone()),
            Response::Done => Response::Done,
        }
    }
}

} // verus!
