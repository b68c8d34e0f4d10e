//! A read-only map from cells to values, and its builder.

use crate::automaton::{
    builder_entries, builder_finish, builder_insert, builder_into_fst, builder_into_inner,
    builder_memory, builder_new, builder_sink, fst_as_bytes, fst_data, fst_is_empty, fst_len,
    footer_fits, fst_stream, image_entries, image_sound, keys_of, stream_next, stream_rest,
    within, Cursor,
};
use crate::cell::{cell_raw, raw_valid};
use crate::error::BuildError;
use crate::index::{
    bound_key, bounded_stream, cell_keys, cell_of_key, descendant_entries, first_and_last_child,
    index_image, lemma_keys_within, lemma_valid_entries, lemma_valid_rest, lemma_within_all,
    lemma_within_cell_keys, open_automaton, opens, valid_entries, values_of,
};
use crate::key::{cell_key, Key};
use crate::lookup::{find_cell, found_key, has_entry, shortest_stored};
use crate::order::strictly_increasing;
use crate::set::{follows, key_of, lemma_push_cell_key, taken};
use fst::raw::{Builder, Fst};
use h3o::CellIndex;
use std::ops::Bound;
use vstd::prelude::*;

verus! {

/// The entries that pairs of a cell and a value stand for: the key of the
/// cell and the value, in the same order.
pub open spec fn entries_of_pairs(pairs: Seq<(CellIndex, u64)>) -> Seq<(Seq<u8>, u64)> {
    Seq::new(pairs.len(), |i: int| (cell_key(cell_raw(pairs[i].0)), pairs[i].1))
}

/// The entry that a pair of a cell and a value stands for.
pub open spec fn entry_of(pair: (CellIndex, u64)) -> (Seq<u8>, u64) {
    (cell_key(cell_raw(pair.0)), pair.1)
}

/// A read-only map of H3 cell indexes.
pub struct FrozenMap {
    fst: Fst<Vec<u8>>,
}

impl View for FrozenMap {
    type V = Seq<(Seq<u8>, u64)>;

    /// The entries of the map, each the key of a cell and the value stored
    /// under it, in the order of the keys.
    open spec fn view(&self) -> Seq<(Seq<u8>, u64)> {
        image_entries(self.data())
    }
}

impl FrozenMap {
    /// The bytes that the map reads.
    pub closed spec fn data(&self) -> Seq<u8> {
        fst_data(self.fst)
    }

    /// The bytes are an automaton as a builder writes it: what it holds
    /// can be read.
    pub open spec fn readable(&self) -> bool {
        image_sound(self.data())
    }

    /// The bytes are an index of cells. A map that a builder made is; of
    /// one made from bytes the caller has to know it.
    pub open spec fn wf(&self) -> bool {
        index_image(self.data())
    }

    /// Creates a map from its representation as a raw byte sequence.
    ///
    /// Only the header and the footer of the automaton are looked at: that
    /// a map is returned does not show that it is well formed.
    pub fn new(data: Vec<u8>) -> (r: Result<Self, BuildError>)
        ensures
            match r {
                Ok(map) => opens(data@) && map.data() == data@,
                Err(e) => !opens(data@) && e is Format && (e.cause() is None <==> !footer_fits(
                    data@,
                )),
            },
    {
        match open_automaton(data) {
            Ok(fst) => Ok(FrozenMap { fst }),
            Err(e) => Err(e),
        }
    }

    /// Returns the number of elements in this map.
    pub fn len(&self) -> (n: usize)
        requires
            self.readable(),
        ensures
            n == self@.len(),
    {
        fst_len(&self.fst)
    }

    /// Returns true if and only if this map is empty.
    pub fn is_empty(&self) -> (empty: bool)
        requires
            self.readable(),
        ensures
            empty <==> self@.len() == 0,
    {
        fst_is_empty(&self.fst)
    }

    /// Tests the membership of a single H3 cell index.
    ///
    /// Returns the cell itself or its coarsest ancestor that is a key of
    /// the map, or nothing where neither the cell nor an ancestor is.
    pub fn contains_key(&self, index: CellIndex) -> (found: Option<CellIndex>)
        requires
            self.wf(),
        ensures
            shortest_stored(keys_of(self@), cell_key(cell_raw(index)), key_of(found)),
            raw_valid(cell_raw(index)),
            found is Some ==> raw_valid(cell_raw(found.unwrap())),
    {
        match find_cell(&self.fst, index) {
            Some((cell, _)) => Some(cell),
            None => None,
        }
    }

    /// Retrieves the value associated with a cell index.
    ///
    /// Returns the cell itself or its coarsest ancestor that is a key of
    /// the map, with the value stored under that key, or nothing where
    /// neither the cell nor an ancestor is a key.
    pub fn get(&self, index: CellIndex) -> (found: Option<(CellIndex, u64)>)
        requires
            self.wf(),
        ensures
            shortest_stored(keys_of(self@), cell_key(cell_raw(index)), found_key(found)),
            found is Some ==> has_entry(self@, found_key(found).unwrap(), found.unwrap().1),
            raw_valid(cell_raw(index)),
            found is Some ==> raw_valid(cell_raw(found.unwrap().0)),
    {
        find_cell(&self.fst, index)
    }

    /// Return a lexicographically ordered stream of every key-value (present
    /// in the map) whose key descends from the given cell index and lies
    /// between its first and its last child.
    pub fn descendants(&self, index: CellIndex) -> (pairs: FrozenMapRange<'_>)
        requires
            self.wf(),
        ensures
            pairs.wf(),
            pairs.remaining() == descendant_entries(self@, cell_key(cell_raw(index))),
    {
        match first_and_last_child(index) {
            None => FrozenMapRange::Empty,
            Some((start, end)) => self.range((Bound::Included(start), Bound::Included(end))),
        }
    }

    /// Return a lexicographically ordered stream of all key-value pairs in
    /// this map.
    pub fn iter(&self) -> (pairs: FrozenMapIterator<'_>)
        requires
            self.wf(),
        ensures
            pairs.wf(),
            pairs.remaining() == self@,
    {
        FrozenMapIterator::new(self)
    }

    /// Return a lexicographically ordered stream of all cells in this map.
    pub fn keys(&self) -> (cells: FrozenMapKeys<'_>)
        requires
            self.wf(),
        ensures
            cells.wf(),
            cells.remaining() == keys_of(self@),
    {
        FrozenMapKeys::new(self)
    }

    /// Return a stream of all values in this map ordered
    /// lexicographically by each value's corresponding key.
    pub fn values(&self) -> (values: FrozenMapValues<'_>)
        requires
            self.wf(),
        ensures
            values.wf(),
            values.remaining() == values_of(self@),
    {
        FrozenMapValues::new(self)
    }

    /// Return a lexicographically ordered stream of key-value pairs in the
    /// specified key range.
    pub fn range(&self, range: (Bound<CellIndex>, Bound<CellIndex>)) -> (pairs: FrozenMapRange<'_>)
        requires
            self.wf(),
        ensures
            pairs.wf(),
            pairs.remaining() == within(self@, bound_key(range.0), bound_key(range.1)),
    {
        let (start, end) = range;
        proof {
            lemma_keys_within(self@, bound_key(start), bound_key(end));
            lemma_within_cell_keys(keys_of(self@), bound_key(start), bound_key(end));
            lemma_valid_entries(within(self@, bound_key(start), bound_key(end)));
            lemma_within_all(self@);
        }
        match (&start, &end) {
            (Bound::Unbounded, Bound::Unbounded) => FrozenMapRange::Full(self.iter()),
            _ => FrozenMapRange::Bounded(
                FrozenMapRangeIterator { stream: bounded_stream(&self.fst, start, end) },
            ),
        }
    }

    /// Create a `FrozenMap` from a slice of H3 cell indexes and associated
    /// values, ordered by the cells.
    ///
    /// Fails where the keys of the cells are not in strictly increasing
    /// order.
    pub fn try_from_iter(pairs: &[(CellIndex, u64)]) -> (r: Result<Self, BuildError>)
        ensures
            r is Ok <==> strictly_increasing(keys_of(entries_of_pairs(pairs@))),
            r is Ok ==> r.unwrap().wf() && r.unwrap()@ == entries_of_pairs(pairs@),
            r is Ok ==> opens(r.unwrap().data()),
            r is Err ==> r matches Err(BuildError::OrderViolation(Some(_))),
    {
        let mut builder = FrozenMapBuilder::memory();
        proof {
            assert(builder.entries() + entries_of_pairs(pairs@) =~= entries_of_pairs(pairs@));
        }
        match builder.extend_iter(pairs) {
            Ok(()) => {},
            Err(e) => {
                return Err(e);
            },
        }
        match builder.into_inner() {
            Ok(data) => {
                proof {
                    assert(data@.skip(0) =~= data@);
                }
                Self::new(data)
            },
            Err(e) => Err(e),
        }
    }

    /// Returns the binary contents of this map.
    pub fn as_bytes(&self) -> (bytes: &[u8])
        ensures
            bytes@ == self.data(),
    {
        fst_as_bytes(&self.fst)
    }
}

/// An iterator over the key-value pair of a `FrozenMap`.
pub struct FrozenMapIterator<'a> {
    stream: Cursor<'a>,
    len: usize,
    count: usize,
}

impl<'a> FrozenMapIterator<'a> {
    /// The entries that are still to come, in order.
    pub closed spec fn remaining(&self) -> Seq<(Seq<u8>, u64)> {
        stream_rest(self.stream)
    }

    /// Every key to come is the key of a cell, and the count of what has
    /// come is kept.
    pub closed spec fn wf(&self) -> bool {
        &&& valid_entries(self.remaining())
        &&& self.count + self.remaining().len() == self.len
    }

    fn new(map: &'a FrozenMap) -> (pairs: Self)
        requires
            map.wf(),
        ensures
            pairs.wf(),
            pairs.remaining() == map@,
    {
        proof {
            lemma_valid_entries(map@);
        }
        FrozenMapIterator { stream: fst_stream(&map.fst), len: map.len(), count: 0 }
    }

    /// The next cell with its value, or nothing when all have come.
    pub fn next(&mut self) -> (pair: Option<(CellIndex, u64)>)
        requires
            old(self).wf(),
        ensures
            final(self).wf(),
            pair is Some <==> old(self).remaining().len() > 0,
            pair is Some ==> entry_of(pair.unwrap()) == old(self).remaining().first(),
            pair is Some ==> raw_valid(cell_raw(pair.unwrap().0)),
            pair is Some ==> final(self).remaining() == old(self).remaining().drop_first(),
            pair is None ==> final(self).remaining().len() == 0,
    {
        let ghost before = stream_rest(self.stream);
        match stream_next(&mut self.stream) {
            Some((key, value)) => {
                proof {
                    lemma_valid_rest(before);
                }
                self.count += 1;
                match cell_of_key(key.as_slice()) {
                    Some(cell) => Some((cell, value)),
                    None => None,
                }
            },
            None => None,
        }
    }

    /// The bounds on the number of pairs to come: they are exact.
    pub fn size_hint(&self) -> (bounds: (usize, Option<usize>))
        requires
            self.wf(),
        ensures
            bounds.0 == self.remaining().len(),
            bounds.1 == Some(bounds.0),
    {
        (self.len(), Some(self.len()))
    }

    /// The number of pairs to come.
    pub fn len(&self) -> (n: usize)
        requires
            self.wf(),
        ensures
            n == self.remaining().len(),
    {
        // We can easily calculate the remaining number of iterations.
        self.len - self.count
    }
}

/// An iterator over the keys of a `FrozenMap`.
pub struct FrozenMapKeys<'a> {
    keys: Cursor<'a>,
    len: usize,
    count: usize,
}

impl<'a> FrozenMapKeys<'a> {
    /// The keys of the cells that are still to come, in order.
    pub closed spec fn remaining(&self) -> Seq<Seq<u8>> {
        keys_of(stream_rest(self.keys))
    }

    /// Every key to come is the key of a cell, and the count of what has
    /// come is kept.
    pub closed spec fn wf(&self) -> bool {
        &&& valid_entries(stream_rest(self.keys))
        &&& self.count + self.remaining().len() == self.len
    }

    fn new(map: &'a FrozenMap) -> (cells: Self)
        requires
            map.wf(),
        ensures
            cells.wf(),
            cells.remaining() == keys_of(map@),
    {
        proof {
            lemma_valid_entries(map@);
        }
        FrozenMapKeys { keys: fst_stream(&map.fst), len: map.len(), count: 0 }
    }

    /// The next cell, or nothing when all have come.
    pub fn next(&mut self) -> (cell: Option<CellIndex>)
        requires
            old(self).wf(),
        ensures
            final(self).wf(),
            cell is Some <==> old(self).remaining().len() > 0,
            cell is Some ==> cell_key(cell_raw(cell.unwrap())) == old(self).remaining().first(),
            cell is Some ==> raw_valid(cell_raw(cell.unwrap())),
            cell is Some ==> final(self).remaining() == old(self).remaining().drop_first(),
            cell is None ==> final(self).remaining().len() == 0,
    {
        let ghost before = stream_rest(self.keys);
        match stream_next(&mut self.keys) {
            Some((key, _)) => {
                proof {
                    lemma_valid_rest(before);
                }
                self.count += 1;
                cell_of_key(key.as_slice())
            },
            None => None,
        }
    }

    /// The bounds on the number of cells to come: they are exact.
    pub fn size_hint(&self) -> (bounds: (usize, Option<usize>))
        requires
            self.wf(),
        ensures
            bounds.0 == self.remaining().len(),
            bounds.1 == Some(bounds.0),
    {
        (self.len(), Some(self.len()))
    }

    /// The number of cells to come.
    pub fn len(&self) -> (n: usize)
        requires
            self.wf(),
        ensures
            n == self.remaining().len(),
    {
        // We can easily calculate the remaining number of iterations.
        self.len - self.count
    }
}

/// An iterator over the values of a `FrozenMap`.
pub struct FrozenMapValues<'a> {
    values: Cursor<'a>,
    len: usize,
    count: usize,
}

impl<'a> FrozenMapValues<'a> {
    /// The values that are still to come, in the order of their keys.
    pub closed spec fn remaining(&self) -> Seq<u64> {
        values_of(stream_rest(self.values))
    }

    /// The count of what has come is kept.
    pub closed spec fn wf(&self) -> bool {
        self.count + self.remaining().len() == self.len
    }

    fn new(map: &'a FrozenMap) -> (values: Self)
        requires
            map.wf(),
        ensures
            values.wf(),
            values.remaining() == values_of(map@),
    {
        FrozenMapValues { values: fst_stream(&map.fst), len: map.len(), count: 0 }
    }

    /// The next value, or nothing when all have come.
    pub fn next(&mut self) -> (value: Option<u64>)
        requires
            old(self).wf(),
        ensures
            final(self).wf(),
            value is Some <==> old(self).remaining().len() > 0,
            value is Some ==> value.unwrap() == old(self).remaining().first(),
            value is Some ==> final(self).remaining() == old(self).remaining().drop_first(),
            value is None ==> final(self).remaining().len() == 0,
    {
        let ghost before = stream_rest(self.values);
        match stream_next(&mut self.values) {
            Some((_, value)) => {
                proof {
                    assert(values_of(before.drop_first()) =~= values_of(before).drop_first());
                }
                self.count += 1;
                Some(value)
            },
            None => None,
        }
    }

    /// The bounds on the number of values to come: they are exact.
    pub fn size_hint(&self) -> (bounds: (usize, Option<usize>))
        requires
            self.wf(),
        ensures
            bounds.0 == self.remaining().len(),
            bounds.1 == Some(bounds.0),
    {
        (self.len(), Some(self.len()))
    }

    /// The number of values to come.
    pub fn len(&self) -> (n: usize)
        requires
            self.wf(),
        ensures
            n == self.remaining().len(),
    {
        // We can easily calculate the remaining number of iterations.
        self.len - self.count
    }
}

/// An iterator over a subset of key-value pairs in a specified range of
/// keys.
pub struct FrozenMapRangeIterator<'a> {
    stream: Cursor<'a>,
}

impl<'a> FrozenMapRangeIterator<'a> {
    /// The entries that are still to come, in order.
    pub closed spec fn remaining(&self) -> Seq<(Seq<u8>, u64)> {
        stream_rest(self.stream)
    }

    /// Every key to come is the key of a cell.
    pub open spec fn wf(&self) -> bool {
        valid_entries(self.remaining())
    }

    /// The next cell with its value, or nothing when all have come.
    pub fn next(&mut self) -> (pair: Option<(CellIndex, u64)>)
        requires
            old(self).wf(),
        ensures
            final(self).wf(),
            pair is Some <==> old(self).remaining().len() > 0,
            pair is Some ==> entry_of(pair.unwrap()) == old(self).remaining().first(),
            pair is Some ==> raw_valid(cell_raw(pair.unwrap().0)),
            pair is Some ==> final(self).remaining() == old(self).remaining().drop_first(),
            pair is None ==> final(self).remaining().len() == 0,
    {
        let ghost before = stream_rest(self.stream);
        match stream_next(&mut self.stream) {
            Some((key, value)) => {
                proof {
                    lemma_valid_rest(before);
                }
                match cell_of_key(key.as_slice()) {
                    Some(cell) => Some((cell, value)),
                    None => None,
                }
            },
            None => None,
        }
    }
}

/// The pairs of a map within a range: none, all of them, or those between
/// bounds.
pub enum FrozenMapRange<'a> {
    /// No pair.
    Empty,
    /// Every pair of the map.
    Full(FrozenMapIterator<'a>),
    /// The pairs whose keys lie between two bounds.
    Bounded(FrozenMapRangeIterator<'a>),
}

impl<'a> FrozenMapRange<'a> {
    /// The entries that are still to come, in order.
    pub open spec fn remaining(&self) -> Seq<(Seq<u8>, u64)> {
        match self {
            FrozenMapRange::Empty => Seq::empty(),
            FrozenMapRange::Full(pairs) => pairs.remaining(),
            FrozenMapRange::Bounded(pairs) => pairs.remaining(),
        }
    }

    /// The iterator inside is well formed.
    pub open spec fn wf(&self) -> bool {
        match self {
            FrozenMapRange::Empty => true,
            FrozenMapRange::Full(pairs) => pairs.wf(),
            FrozenMapRange::Bounded(pairs) => pairs.wf(),
        }
    }

    /// The next cell with its value, or nothing when all have come.
    pub fn next(&mut self) -> (pair: Option<(CellIndex, u64)>)
        requires
            old(self).wf(),
        ensures
            final(self).wf(),
            pair is Some <==> old(self).remaining().len() > 0,
            pair is Some ==> entry_of(pair.unwrap()) == old(self).remaining().first(),
            pair is Some ==> raw_valid(cell_raw(pair.unwrap().0)),
            pair is Some ==> final(self).remaining() == old(self).remaining().drop_first(),
            pair is None ==> final(self).remaining().len() == 0,
    {
        match self {
            FrozenMapRange::Empty => None,
            FrozenMapRange::Full(pairs) => pairs.next(),
            FrozenMapRange::Bounded(pairs) => pairs.next(),
        }
    }
}

/// A builder for creating a frozen map.
pub struct FrozenMapBuilder {
    builder: Builder<Vec<u8>>,
    failed: bool,
}

impl FrozenMapBuilder {
    /// The entries inserted so far, in order.
    pub closed spec fn entries(&self) -> Seq<(Seq<u8>, u64)> {
        builder_entries(self.builder)
    }

    /// What the sink held when the builder was made.
    pub closed spec fn sink(&self) -> Seq<u8> {
        builder_sink(self.builder)
    }

    /// Whether an insertion has failed. Such a builder takes no pair any
    /// more and gives no map.
    pub closed spec fn failed(&self) -> bool {
        self.failed
    }

    /// The cells inserted so far are in strictly increasing order of their
    /// keys.
    pub open spec fn wf(&self) -> bool {
        cell_keys(keys_of(self.entries()))
    }

    /// Create a builder that builds a map by writing it behind what `sink`
    /// holds.
    pub fn new(sink: Vec<u8>) -> (r: Result<Self, BuildError>)
        ensures
            r is Ok,
            r.unwrap().wf(),
            r.unwrap().entries().len() == 0,
            r.unwrap().sink() == sink@,
            !r.unwrap().failed(),
    {
        match builder_new(sink) {
            Ok(builder) => Ok(FrozenMapBuilder { builder, failed: false }),
            Err(e) => Err(BuildError::Write(e)),
        }
    }

    /// Create a builder that builds a map in memory.
    pub fn memory() -> (b: Self)
        ensures
            b.wf(),
            b.entries().len() == 0,
            b.sink().len() == 0,
            !b.failed(),
    {
        FrozenMapBuilder { builder: builder_memory(), failed: false }
    }

    /// Insert a new key-value pair into the map.
    ///
    /// The pair is taken where no insertion has failed before and the key
    /// of the cell comes strictly after the key of the last cell taken.
    /// Otherwise the insertion fails, and every later one does.
    pub fn insert(&mut self, index: CellIndex, value: u64) -> (r: Result<(), BuildError>)
        requires
            old(self).wf(),
        ensures
            final(self).wf(),
            final(self).sink() == old(self).sink(),
            r is Ok <==> !old(self).failed() && follows(
                keys_of(old(self).entries()),
                cell_key(cell_raw(index)),
            ),
            r is Ok ==> final(self).entries() == old(self).entries().push(
                (cell_key(cell_raw(index)), value),
            ),
            r is Ok ==> !final(self).failed(),
            r is Err ==> final(self).entries() == old(self).entries(),
            r is Err ==> final(self).failed(),
            r is Err ==> r matches Err(BuildError::OrderViolation(_)),
            r is Err ==> (r matches Err(BuildError::OrderViolation(None)) <==> old(self).failed()),
    {
        if self.failed {
            return Err(BuildError::OrderViolation(None));
        }
        let key = Key::from(index);
        let ghost before = builder_entries(self.builder);
        match builder_insert(&mut self.builder, key.as_ref(), value) {
            Ok(()) => {
                proof {
                    let after = builder_entries(self.builder);
                    assert(keys_of(after) =~= keys_of(before).push(key@));
                    lemma_push_cell_key(keys_of(before), key@);
                }
                Ok(())
            },
            Err(e) => {
                self.failed = true;
                Err(BuildError::OrderViolation(Some(e)))
            },
        }
    }

    /// Calls insert on each pair in the slice, in order.
    ///
    /// If an error occurred while adding an element, processing is stopped
    /// and the error is returned: no later pair is tried.
    pub fn extend_iter(&mut self, pairs: &[(CellIndex, u64)]) -> (r: Result<(), BuildError>)
        requires
            old(self).wf(),
        ensures
            final(self).wf(),
            final(self).sink() == old(self).sink(),
            r is Ok <==> pairs@.len() == 0 || (!old(self).failed() && strictly_increasing(
                keys_of(old(self).entries() + entries_of_pairs(pairs@)),
            )),
            r is Ok ==> final(self).entries() == old(self).entries() + entries_of_pairs(pairs@),
            r is Ok ==> final(self).failed() == old(self).failed(),
            r is Err ==> final(self).failed(),
            r is Err ==> r matches Err(BuildError::OrderViolation(_)),
            r is Err ==> (r matches Err(BuildError::OrderViolation(None)) <==> old(self).failed()),
            r is Err ==> exists|n: int|
                0 <= n < pairs@.len() && #[trigger] taken(
                    keys_of(old(self).entries()),
                    keys_of(entries_of_pairs(pairs@)),
                    n,
                    old(self).failed(),
                ) && final(self).entries() == old(self).entries() + entries_of_pairs(pairs@).take(
                    n,
                ),
    {
        let ghost start = self.entries();
        let ghost more = entries_of_pairs(pairs@);
        let mut i: usize = 0;
        proof {
            assert(start + more.take(0) =~= start);
        }
        while i < pairs.len()
            invariant
                i <= pairs@.len(),
                start == old(self).entries(),
                more == entries_of_pairs(pairs@),
                self.wf(),
                self.sink() == old(self).sink(),
                self.failed() == old(self).failed(),
                self.entries() == start + more.take(i as int),
                i > 0 ==> !old(self).failed(),
            decreases pairs@.len() - i,
        {
            let ghost so_far = self.entries();
            let (index, value) = pairs[i];
            proof {
                assert(more[i as int] == (cell_key(cell_raw(index)), value));
                assert(keys_of(so_far) =~= keys_of(start) + keys_of(more).take(i as int));
                assert(keys_of(more)[i as int] == cell_key(cell_raw(index)));
            }
            match self.insert(index, value) {
                Ok(()) => {},
                Err(e) => {
                    proof {
                        assert(taken(keys_of(start), keys_of(more), i as int, old(self).failed()));
                        if strictly_increasing(keys_of(start + more)) {
                            let all = keys_of(start + more);
                            let at = start.len() + i;
                            assert(all[at] == keys_of(more)[i as int]);
                            if so_far.len() > 0 {
                                assert(all[at - 1] == keys_of(so_far).last());
                                assert(crate::order::lex_lt(all[at - 1], all[at]));
                            }
                        }
                    }
                    return Err(e);
                },
            }
            proof {
                assert(more.take(i + 1) =~= more.take(i as int).push(more[i as int]));
                assert(self.entries() =~= start + more.take(i + 1));
            }
            i += 1;
        }
        proof {
            assert(more.take(pairs@.len() as int) =~= more);
            if pairs@.len() == 0 {
                assert(start + more =~= start);
            }
        }
        Ok(())
    }

    /// Finishes the construction of the map and drops what was written.
    pub fn finish(self) -> (r: Result<(), BuildError>)
        requires
            self.wf(),
        ensures
            r is Ok <==> !self.failed(),
            r is Err ==> r matches Err(BuildError::OrderViolation(None)),
    {
        if self.failed {
            return Err(BuildError::OrderViolation(None));
        }
        match builder_finish(self.builder) {
            Ok(()) => Ok(()),
            Err(e) => Err(BuildError::Write(e)),
        }
    }

    /// Just like `finish`, except it returns what was written: what the
    /// sink held, and behind it the bytes of the map.
    pub fn into_inner(self) -> (r: Result<Vec<u8>, BuildError>)
        requires
            self.wf(),
        ensures
            r is Ok <==> !self.failed(),
            r is Err ==> r matches Err(BuildError::OrderViolation(None)),
            r is Ok ==> ends_in_map(r.unwrap()@, self.sink(), self.entries()),
    {
        if self.failed {
            return Err(BuildError::OrderViolation(None));
        }
        match builder_into_inner(self.builder) {
            Ok(bytes) => Ok(bytes),
            Err(e) => Err(BuildError::Write(e)),
        }
    }

    /// Finishes the construction of the map and returns it.
    pub fn into_map(self) -> (map: FrozenMap)
        requires
            self.wf(),
            !self.failed(),
            self.sink().len() == 0,
        ensures
            map.wf(),
            map@ == self.entries(),
            opens(map.data()),
    {
        FrozenMap { fst: builder_into_fst(self.builder) }
    }
}

/// Whether `data` is `sink` and behind it an index with the given entries,
/// which opens as a map.
pub open spec fn ends_in_map(data: Seq<u8>, sink: Seq<u8>, entries: Seq<(Seq<u8>, u64)>) -> bool {
    &&& sink.len() <= data.len()
    &&& data.take(sink.len() as int) == sink
    &&& index_image(data.skip(sink.len() as int))
    &&& opens(data.skip(sink.len() as int))
    &&& image_entries(data.skip(sink.len() as int)) == entries
}

} // verus!
