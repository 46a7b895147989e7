//! Byte classes: 256-byte tables mapping each input byte to a column of a
//! DFA state's transition table, pooled and deduplicated by value.
//!
//! The pool itself is indexmap's `IndexSet`, an insertion-ordered set; the
//! library sees it through the trusted items below, whose contracts speak
//! of `pool_elems`, the sequence of the pool's entries in insertion order.

use vstd::prelude::*;

use indexmap::IndexSet;

verus! {

#[verifier::external_type_specification]
#[verifier::external_body]
#[verifier::reject_recursive_types(T)]
#[verifier::reject_recursive_types(S)]
pub struct ExIndexSet<T, S>(IndexSet<T, S>);

/// A table assigning each of the 256 input bytes a column index.
#[derive(Debug, Clone, PartialEq, Eq, Hash)]
pub struct ByteClass {
    bytes: Vec<u8>,
}

impl View for ByteClass {
    type V = Seq<u8>;

    closed spec fn view(&self) -> Seq<u8> {
        self.bytes@
    }
}

impl ByteClass {
    /// A byte class is always a full 256-entry table.
    pub open spec fn wf(&self) -> bool {
        self@.len() == 256
    }

    /// The table sending every byte to column 0.
    pub fn empty() -> (r: ByteClass)
        ensures
            r.wf(),
            forall|b: int| 0 <= b < 256 ==> r@[b] == 0u8,
    {
        let mut bytes: Vec<u8> = Vec::new();
        let mut i: usize = 0;
        while i < 256
            invariant
                0 <= i <= 256,
                bytes@.len() == i,
                forall|b: int| 0 <= b < i ==> bytes@[b] == 0u8,
            decreases 256 - i,
        {
            bytes.push(0);
            i += 1;
        }
        ByteClass { bytes }
    }

    /// Whether the table has its full 256 entries.
    pub fn len_is_256(&self) -> (r: bool)
        ensures
            r == self.wf(),
    {
        self.bytes.len() == 256
    }

    /// The column for byte `b`.
    pub fn get(&self, b: u8) -> (r: u8)
        requires
            self.wf(),
        ensures
            r == self@[b as int],
    {
        self.bytes[b as usize]
    }

    /// Sets the column for byte `b`.
    pub fn set(&mut self, b: u8, col: u8)
        requires
            old(self).wf(),
        ensures
            final(self)@ == old(self)@.update(b as int, col),
            final(self).wf(),
    {
        self.bytes.set(b as usize, col);
    }
}

/// The entries of a byte-class pool, in insertion order.
pub uninterp spec fn pool_elems(s: &IndexSet<ByteClass>) -> Seq<Seq<u8>>;

/// Relies on indexmap's IndexSet::new: creates an empty set.
#[verifier::external_body]
pub(crate) fn pool_new() -> (s: IndexSet<ByteClass>)
    ensures
        pool_elems(&s) == Seq::<Seq<u8>>::empty(),
{
    IndexSet::new()
}

/// Relies on indexmap's IndexSet::len: the number of entries.
#[verifier::external_body]
pub(crate) fn pool_len(s: &IndexSet<ByteClass>) -> (n: usize)
    ensures
        n == pool_elems(s).len(),
{
    s.len()
}

/// Relies on indexmap's IndexSet::get_index_of: the index of the entry that
/// equals the given value, if one is present.  `ByteClass` derives its
/// equality and hash from its 256-byte content.
#[verifier::external_body]
pub(crate) fn pool_get_index_of(s: &IndexSet<ByteClass>, v: &ByteClass) -> (r: Option<usize>)
    ensures
        match r {
            Some(i) => i < pool_elems(s).len() && pool_elems(s)[i as int] == v@,
            None => forall|j: int| 0 <= j < pool_elems(s).len() ==> pool_elems(s)[j] != v@,
        },
{
    s.get_index_of(v)
}

/// Relies on indexmap's IndexSet::insert: appends the value at the end of
/// the insertion order unless an equal entry is already present, in which
/// case the set is unchanged.
#[verifier::external_body]
pub(crate) fn pool_insert(s: &mut IndexSet<ByteClass>, v: ByteClass)
    ensures
        pool_elems(final(s)) == (if exists|j: int|
            0 <= j < pool_elems(old(s)).len() && pool_elems(old(s))[j] == v@ {
            pool_elems(old(s))
        } else {
            pool_elems(old(s)).push(v@)
        }),
{
    s.insert(v);
}

/// Relies on indexmap's IndexSet::get_index: the entry at the given
/// position of the insertion order.
#[verifier::external_body]
pub(crate) fn pool_get<'a>(s: &'a IndexSet<ByteClass>, i: usize) -> (r: &'a ByteClass)
    requires
        i < pool_elems(s).len(),
    ensures
        r@ == pool_elems(s)[i as int],
{
    s.get_index(i).unwrap()
}

} // verus!
