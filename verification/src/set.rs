//! A read-only set of cells, and its builder.

use crate::automaton::{
    builder_entries, builder_finish, builder_insert, builder_into_fst, builder_into_inner,
    builder_memory, builder_new, builder_sink, fst_as_bytes, fst_data, fst_is_empty, fst_len,
    footer_fits, fst_stream, image_entries, image_sound, keys_of, stream_next, stream_rest,
    within, Cursor,
};
use crate::cell::{cell_raw, raw_valid};
use crate::error::BuildError;
use crate::index::{
    bound_key, bounded_stream, cell_keys, cell_of_key, descendant_keys, first_and_last_child,
    index_image, keys_within, lemma_keys_within, lemma_valid_entries, lemma_valid_rest,
    lemma_within_all, lemma_within_cell_keys, open_automaton, opens, stored_keys, valid_entries,
};
use crate::key::{cell_key, Key};
use crate::lookup::{find_cell, shortest_stored};
use crate::order::{lex_lt, strictly_increasing};
use fst::raw::{Builder, Fst};
use h3o::CellIndex;
use std::ops::Bound;
use vstd::prelude::*;

verus! {

/// The key of a cell, if there is a cell.
pub open spec fn key_of(cell: Option<CellIndex>) -> Option<Seq<u8>> {
    match cell {
        Some(cell) => Some(cell_key(cell_raw(cell))),
        None => None,
    }
}

/// The keys of cells, in the same order.
pub open spec fn keys_of_cells(cells: Seq<CellIndex>) -> Seq<Seq<u8>> {
    Seq::new(cells.len(), |i: int| cell_key(cell_raw(cells[i])))
}

/// A read-only set of H3 cell indexes.
pub struct FrozenSet {
    fst: Fst<Vec<u8>>,
}

impl View for FrozenSet {
    type V = Seq<Seq<u8>>;

    /// The keys of the cells in the set, in order.
    open spec fn view(&self) -> Seq<Seq<u8>> {
        stored_keys(self.data())
    }
}

impl FrozenSet {
    /// The bytes that the set reads.
    pub closed spec fn data(&self) -> Seq<u8> {
        fst_data(self.fst)
    }

    /// The bytes are an automaton as a builder writes it: what it holds
    /// can be read.
    pub open spec fn readable(&self) -> bool {
        image_sound(self.data())
    }

    /// The bytes are an index of cells. A set that a builder made is; of
    /// one made from bytes the caller has to know it.
    pub open spec fn wf(&self) -> bool {
        index_image(self.data())
    }

    /// Creates a set from its representation as a raw byte sequence.
    ///
    /// Only the header and the footer of the automaton are looked at: that
    /// a set is returned does not show that it is well formed.
    pub fn new(data: Vec<u8>) -> (r: Result<Self, BuildError>)
        ensures
            match r {
                Ok(set) => opens(data@) && set.data() == data@,
                Err(e) => !opens(data@) && e is Format && (e.cause() is None <==> !footer_fits(
                    data@,
                )),
            },
    {
        match open_automaton(data) {
            Ok(fst) => Ok(FrozenSet { fst }),
            Err(e) => Err(e),
        }
    }

    /// Returns the number of elements in this set.
    pub fn len(&self) -> (n: usize)
        requires
            self.readable(),
        ensures
            n == self@.len(),
    {
        fst_len(&self.fst)
    }

    /// Returns true if and only if this set is empty.
    pub fn is_empty(&self) -> (empty: bool)
        requires
            self.readable(),
        ensures
            empty <==> self@.len() == 0,
    {
        fst_is_empty(&self.fst)
    }

    /// Tests the membership of a single H3 cell index.
    ///
    /// Returns the cell itself or its coarsest ancestor that is in the set,
    /// or nothing where neither the cell nor an ancestor is.
    pub fn contains(&self, index: CellIndex) -> (found: Option<CellIndex>)
        requires
            self.wf(),
        ensures
            shortest_stored(self@, cell_key(cell_raw(index)), key_of(found)),
            raw_valid(cell_raw(index)),
            found is Some ==> raw_valid(cell_raw(found.unwrap())),
    {
        match find_cell(&self.fst, index) {
            Some((cell, _)) => Some(cell),
            None => None,
        }
    }

    /// Return a lexicographically ordered stream of every descendant (present
    /// in the set) of the given cell index that lies between its first and
    /// its last child.
    pub fn descendants(&self, index: CellIndex) -> (cells: FrozenSetRange<'_>)
        requires
            self.wf(),
        ensures
            cells.wf(),
            cells.remaining() == descendant_keys(self@, cell_key(cell_raw(index))),
    {
        match first_and_last_child(index) {
            None => FrozenSetRange::Empty,
            Some((start, end)) => self.range((Bound::Included(start), Bound::Included(end))),
        }
    }

    /// Return a lexicographically ordered stream of all cells in this set.
    pub fn iter(&self) -> (cells: FrozenSetIterator<'_>)
        requires
            self.wf(),
        ensures
            cells.wf(),
            cells.remaining() == self@,
    {
        FrozenSetIterator::new(self)
    }

    /// Return a lexicographically ordered stream over the subset of keys in
    /// the specified range.
    pub fn range(&self, range: (Bound<CellIndex>, Bound<CellIndex>)) -> (cells: FrozenSetRange<'_>)
        requires
            self.wf(),
        ensures
            cells.wf(),
            cells.remaining() == keys_within(self@, bound_key(range.0), bound_key(range.1)),
    {
        let (start, end) = range;
        proof {
            let entries = image_entries(fst_data(self.fst));
            lemma_keys_within(entries, bound_key(start), bound_key(end));
            lemma_within_cell_keys(self@, bound_key(start), bound_key(end));
            lemma_valid_entries(within(entries, bound_key(start), bound_key(end)));
            lemma_within_all(entries);
        }
        match (&start, &end) {
            (Bound::Unbounded, Bound::Unbounded) => FrozenSetRange::Full(self.iter()),
            _ => FrozenSetRange::Bounded(
                FrozenSetRangeIterator { stream: bounded_stream(&self.fst, start, end) },
            ),
        }
    }

    /// Create a `FrozenSet` from a slice of ordered H3 cell indexes.
    ///
    /// Fails where the keys of the cells are not in strictly increasing
    /// order.
    pub fn try_from_iter(cells: &[CellIndex]) -> (r: Result<Self, BuildError>)
        ensures
            r is Ok <==> strictly_increasing(keys_of_cells(cells@)),
            r is Ok ==> r.unwrap().wf() && r.unwrap()@ == keys_of_cells(cells@),
            r is Ok ==> opens(r.unwrap().data()),
            r is Err ==> r matches Err(BuildError::OrderViolation(Some(_))),
    {
        let mut builder = FrozenSetBuilder::memory();
        proof {
            assert(builder.keys() + keys_of_cells(cells@) =~= keys_of_cells(cells@));
        }
        match builder.extend_iter(cells) {
            Ok(()) => {},
            Err(e) => {
                return Err(e);
            },
        }
        match builder.into_inner() {
            Ok(data) => {
                proof {
                    assert(data@.skip(0) =~= data@);
                }
                Self::new(data)
            },
            Err(e) => Err(e),
        }
    }

    /// Returns the binary contents of this set.
    pub fn as_bytes(&self) -> (bytes: &[u8])
        ensures
            bytes@ == self.data(),
    {
        fst_as_bytes(&self.fst)
    }
}

/// An iterator over every cell of the set.
pub struct FrozenSetIterator<'a> {
    stream: Cursor<'a>,
    len: usize,
    count: usize,
}

impl<'a> FrozenSetIterator<'a> {
    /// The keys of the cells that are still to come, in order.
    pub closed spec fn remaining(&self) -> Seq<Seq<u8>> {
        keys_of(stream_rest(self.stream))
    }

    /// Every key to come is the key of a cell, and the count of what has
    /// come is kept.
    pub closed spec fn wf(&self) -> bool {
        &&& valid_entries(stream_rest(self.stream))
        &&& self.count + self.remaining().len() == self.len
    }

    fn new(set: &'a FrozenSet) -> (cells: Self)
        requires
            set.wf(),
        ensures
            cells.wf(),
            cells.remaining() == set@,
    {
        proof {
            lemma_valid_entries(image_entries(fst_data(set.fst)));
        }
        FrozenSetIterator { stream: fst_stream(&set.fst), len: set.len(), count: 0 }
    }

    /// The next cell, or nothing when all have come.
    pub fn next(&mut self) -> (cell: Option<CellIndex>)
        requires
            old(self).wf(),
        ensures
            final(self).wf(),
            cell is Some <==> old(self).remaining().len() > 0,
            cell is Some ==> cell_key(cell_raw(cell.unwrap())) == old(self).remaining().first(),
            cell is Some ==> raw_valid(cell_raw(cell.unwrap())),
            cell is Some ==> final(self).remaining() == old(self).remaining().drop_first(),
            cell is None ==> final(self).remaining().len() == 0,
    {
        let ghost before = stream_rest(self.stream);
        match stream_next(&mut self.stream) {
            Some((key, _)) => {
                proof {
                    lemma_valid_rest(before);
                }
                self.count += 1;
                cell_of_key(key.as_slice())
            },
            None => None,
        }
    }

    /// The bounds on the number of cells to come: they are exact.
    pub fn size_hint(&self) -> (bounds: (usize, Option<usize>))
        requires
            self.wf(),
        ensures
            bounds.0 == self.remaining().len(),
            bounds.1 == Some(bounds.0),
    {
        (self.len(), Some(self.len()))
    }

    /// The number of cells to come.
    pub fn len(&self) -> (n: usize)
        requires
            self.wf(),
        ensures
            n == self.remaining().len(),
    {
        // We can easily calculate the remaining number of iterations.
        self.len - self.count
    }
}

/// An iterator over a subset of keys in a specified range.
pub struct FrozenSetRangeIterator<'a> {
    stream: Cursor<'a>,
}

impl<'a> FrozenSetRangeIterator<'a> {
    /// The keys of the cells that are still to come, in order.
    pub closed spec fn remaining(&self) -> Seq<Seq<u8>> {
        keys_of(stream_rest(self.stream))
    }

    /// Every key to come is the key of a cell.
    pub closed spec fn wf(&self) -> bool {
        valid_entries(stream_rest(self.stream))
    }

    /// The next cell, or nothing when all have come.
    pub fn next(&mut self) -> (cell: Option<CellIndex>)
        requires
            old(self).wf(),
        ensures
            final(self).wf(),
            cell is Some <==> old(self).remaining().len() > 0,
            cell is Some ==> cell_key(cell_raw(cell.unwrap())) == old(self).remaining().first(),
            cell is Some ==> raw_valid(cell_raw(cell.unwrap())),
            cell is Some ==> final(self).remaining() == old(self).remaining().drop_first(),
            cell is None ==> final(self).remaining().len() == 0,
    {
        let ghost before = stream_rest(self.stream);
        match stream_next(&mut self.stream) {
            Some((key, _)) => {
                proof {
                    lemma_valid_rest(before);
                }
                cell_of_key(key.as_slice())
            },
            None => None,
        }
    }
}

/// The cells of a set within a range: none, all of them, or those between
/// bounds.
pub enum FrozenSetRange<'a> {
    /// No cell.
    Empty,
    /// Every cell of the set.
    Full(FrozenSetIterator<'a>),
    /// The cells between two bounds.
    Bounded(FrozenSetRangeIterator<'a>),
}

impl<'a> FrozenSetRange<'a> {
    /// The keys of the cells that are still to come, in order.
    pub open spec fn remaining(&self) -> Seq<Seq<u8>> {
        match self {
            FrozenSetRange::Empty => Seq::empty(),
            FrozenSetRange::Full(cells) => cells.remaining(),
            FrozenSetRange::Bounded(cells) => cells.remaining(),
        }
    }

    /// The iterator inside is well formed.
    pub open spec fn wf(&self) -> bool {
        match self {
            FrozenSetRange::Empty => true,
            FrozenSetRange::Full(cells) => cells.wf(),
            FrozenSetRange::Bounded(cells) => cells.wf(),
        }
    }

    /// The next cell, or nothing when all have come.
    pub fn next(&mut self) -> (cell: Option<CellIndex>)
        requires
            old(self).wf(),
        ensures
            final(self).wf(),
            cell is Some <==> old(self).remaining().len() > 0,
            cell is Some ==> cell_key(cell_raw(cell.unwrap())) == old(self).remaining().first(),
            cell is Some ==> raw_valid(cell_raw(cell.unwrap())),
            cell is Some ==> final(self).remaining() == old(self).remaining().drop_first(),
            cell is None ==> final(self).remaining().len() == 0,
    {
        match self {
            FrozenSetRange::Empty => None,
            FrozenSetRange::Full(cells) => cells.next(),
            FrozenSetRange::Bounded(cells) => cells.next(),
        }
    }
}

/// A builder for creating a frozen set.
pub struct FrozenSetBuilder {
    builder: Builder<Vec<u8>>,
    failed: bool,
}

impl FrozenSetBuilder {
    /// The keys of the cells inserted so far, in order.
    pub closed spec fn keys(&self) -> Seq<Seq<u8>> {
        keys_of(builder_entries(self.builder))
    }

    /// What the sink held when the builder was made.
    pub closed spec fn sink(&self) -> Seq<u8> {
        builder_sink(self.builder)
    }

    /// Whether an insertion has failed. Such a builder takes no cell any
    /// more and gives no set.
    pub closed spec fn failed(&self) -> bool {
        self.failed
    }

    /// The cells inserted so far are in strictly increasing order of their
    /// keys.
    pub open spec fn wf(&self) -> bool {
        cell_keys(self.keys())
    }

    /// Create a builder that builds a set by writing it behind what `sink`
    /// holds.
    pub fn new(sink: Vec<u8>) -> (r: Result<Self, BuildError>)
        ensures
            r is Ok,
            r.unwrap().wf(),
            r.unwrap().keys().len() == 0,
            r.unwrap().sink() == sink@,
            !r.unwrap().failed(),
    {
        match builder_new(sink) {
            Ok(builder) => Ok(FrozenSetBuilder { builder, failed: false }),
            Err(e) => Err(BuildError::Write(e)),
        }
    }

    /// Create a builder that builds a set in memory.
    pub fn memory() -> (b: Self)
        ensures
            b.wf(),
            b.keys().len() == 0,
            b.sink().len() == 0,
            !b.failed(),
    {
        FrozenSetBuilder { builder: builder_memory(), failed: false }
    }

    /// Insert a new cell index into the set.
    ///
    /// The cell is taken where no insertion has failed before and the key
    /// of the cell comes strictly after the key of the last cell taken.
    /// Otherwise the insertion fails, and every later one does.
    pub fn insert(&mut self, index: CellIndex) -> (r: Result<(), BuildError>)
        requires
            old(self).wf(),
        ensures
            final(self).wf(),
            final(self).sink() == old(self).sink(),
            r is Ok <==> !old(self).failed() && follows(
                old(self).keys(),
                cell_key(cell_raw(index)),
            ),
            r is Ok ==> final(self).keys() == old(self).keys().push(cell_key(cell_raw(index))),
            r is Ok ==> !final(self).failed(),
            r is Err ==> final(self).keys() == old(self).keys(),
            r is Err ==> final(self).failed(),
            r is Err ==> r matches Err(BuildError::OrderViolation(_)),
            r is Err ==> (r matches Err(BuildError::OrderViolation(None)) <==> old(self).failed()),
    {
        if self.failed {
            return Err(BuildError::OrderViolation(None));
        }
        let key = Key::from(index);
        let ghost before = builder_entries(self.builder);
        match builder_insert(&mut self.builder, key.as_ref(), 0) {
            Ok(()) => {
                proof {
                    let after = builder_entries(self.builder);
                    assert(keys_of(after) =~= keys_of(before).push(key@));
                    lemma_push_cell_key(keys_of(before), key@);
                }
                Ok(())
            },
            Err(e) => {
                self.failed = true;
                Err(BuildError::OrderViolation(Some(e)))
            },
        }
    }

    /// Calls insert on each cell index in the slice, in order.
    ///
    /// If an error occurred while adding an element, processing is stopped
    /// and the error is returned: no later cell is tried.
    pub fn extend_iter(&mut self, cells: &[CellIndex]) -> (r: Result<(), BuildError>)
        requires
            old(self).wf(),
        ensures
            final(self).wf(),
            final(self).sink() == old(self).sink(),
            r is Ok <==> cells@.len() == 0 || (!old(self).failed() && strictly_increasing(
                old(self).keys() + keys_of_cells(cells@),
            )),
            r is Ok ==> final(self).keys() == old(self).keys() + keys_of_cells(cells@),
            r is Ok ==> final(self).failed() == old(self).failed(),
            r is Err ==> final(self).failed(),
            r is Err ==> r matches Err(BuildError::OrderViolation(_)),
            r is Err ==> (r matches Err(BuildError::OrderViolation(None)) <==> old(self).failed()),
            r is Err ==> exists|n: int|
                0 <= n < cells@.len() && #[trigger] taken(
                    old(self).keys(),
                    keys_of_cells(cells@),
                    n,
                    old(self).failed(),
                ) && final(self).keys() == old(self).keys() + keys_of_cells(cells@).take(n),
    {
        let mut i: usize = 0;
        while i < cells.len()
            invariant
                i <= cells@.len(),
                self.wf(),
                self.sink() == old(self).sink(),
                self.failed() == old(self).failed(),
                self.keys() == old(self).keys() + keys_of_cells(cells@).take(i as int),
                i > 0 ==> !old(self).failed(),
            decreases cells@.len() - i,
        {
            let ghost so_far = self.keys();
            match self.insert(cells[i]) {
                Ok(()) => {},
                Err(e) => {
                    proof {
                        let key = cell_key(cell_raw(cells@[i as int]));
                        assert(keys_of_cells(cells@)[i as int] == key);
                        assert(taken(
                            old(self).keys(),
                            keys_of_cells(cells@),
                            i as int,
                            old(self).failed(),
                        ));
                        if strictly_increasing(old(self).keys() + keys_of_cells(cells@)) {
                            let all = old(self).keys() + keys_of_cells(cells@);
                            let at = old(self).keys().len() + i;
                            assert(all[at] == keys_of_cells(cells@)[i as int]);
                            if so_far.len() > 0 {
                                assert(all[at - 1] == so_far.last());
                                assert(lex_lt(all[at - 1], all[at]));
                            }
                        }
                    }
                    return Err(e);
                },
            }
            proof {
                assert(keys_of_cells(cells@).take(i + 1) =~= keys_of_cells(cells@).take(
                    i as int,
                ).push(cell_key(cell_raw(cells@[i as int]))));
                assert(self.keys() =~= old(self).keys() + keys_of_cells(cells@).take(i + 1));
            }
            i += 1;
        }
        proof {
            assert(keys_of_cells(cells@).take(cells@.len() as int) =~= keys_of_cells(cells@));
            if cells@.len() == 0 {
                assert(old(self).keys() + keys_of_cells(cells@) =~= old(self).keys());
            }
        }
        Ok(())
    }

    /// Finishes the construction of the set and drops what was written.
    pub fn finish(self) -> (r: Result<(), BuildError>)
        requires
            self.wf(),
        ensures
            r is Ok <==> !self.failed(),
            r is Err ==> r matches Err(BuildError::OrderViolation(None)),
    {
        if self.failed {
            return Err(BuildError::OrderViolation(None));
        }
        match builder_finish(self.builder) {
            Ok(()) => Ok(()),
            Err(e) => Err(BuildError::Write(e)),
        }
    }

    /// Just like `finish`, except it returns what was written: what the
    /// sink held, and behind it the bytes of the set.
    pub fn into_inner(self) -> (r: Result<Vec<u8>, BuildError>)
        requires
            self.wf(),
        ensures
            r is Ok <==> !self.failed(),
            r is Err ==> r matches Err(BuildError::OrderViolation(None)),
            r is Ok ==> ends_in_index(r.unwrap()@, self.sink(), self.keys()),
    {
        if self.failed {
            return Err(BuildError::OrderViolation(None));
        }
        match builder_into_inner(self.builder) {
            Ok(bytes) => Ok(bytes),
            Err(e) => Err(BuildError::Write(e)),
        }
    }

    /// Finishes the construction of the set and returns it.
    pub fn into_set(self) -> (set: FrozenSet)
        requires
            self.wf(),
            !self.failed(),
            self.sink().len() == 0,
        ensures
            set.wf(),
            set@ == self.keys(),
            opens(set.data()),
    {
        FrozenSet { fst: builder_into_fst(self.builder) }
    }
}

/// Whether `key` may be inserted behind `keys`: there is none yet, or it
/// comes strictly after the last.
pub open spec fn follows(keys: Seq<Seq<u8>>, key: Seq<u8>) -> bool {
    keys.len() > 0 ==> lex_lt(keys.last(), key)
}

/// Whether, behind `before`, the first `n` of `keys` are taken and the next
/// one is not: a builder that has failed takes none; another takes the
/// keys that keep the order and stops at the first that does not follow.
pub open spec fn taken(before: Seq<Seq<u8>>, keys: Seq<Seq<u8>>, n: int, failed: bool) -> bool {
    &&& 0 <= n < keys.len()
    &&& failed ==> n == 0
    &&& !failed ==> cell_keys(before + keys.take(n)) && !follows(before + keys.take(n), keys[n])
}

/// Whether `data` is `sink` and behind it an index with the given keys,
/// which opens as a set.
pub open spec fn ends_in_index(data: Seq<u8>, sink: Seq<u8>, keys: Seq<Seq<u8>>) -> bool {
    &&& sink.len() <= data.len()
    &&& data.take(sink.len() as int) == sink
    &&& index_image(data.skip(sink.len() as int))
    &&& opens(data.skip(sink.len() as int))
    &&& stored_keys(data.skip(sink.len() as int)) == keys
}

/// Keys in order stay in order when a valid key that follows the last is
/// put behind them.
pub proof fn lemma_push_cell_key(keys: Seq<Seq<u8>>, key: Seq<u8>)
    requires
        cell_keys(keys),
        crate::key::key_valid(key),
        follows(keys, key),
    ensures
        cell_keys(keys.push(key)),
{
    let all = keys.push(key);
    assert forall|i: int, j: int| 0 <= i < j < all.len() implies lex_lt(all[i], all[j]) by {
        if j == keys.len() && i < keys.len() - 1 {
            crate::order::lemma_lex_transitive(keys[i], keys.last(), key);
        }
    }
}

} // verus!
