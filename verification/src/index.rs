//! What a set and a map have in common: the keys that an automaton holds
//! when it is an index of cells.

use crate::automaton::{
    footer_fits, fst_data, fst_new, fst_range, image_accepted, image_entries, image_sound,
    in_bounds, keys_of, range_ge, range_gt, range_into_stream, range_le, range_lt, stream_rest,
    within, Cursor,
};
use crate::cell::{
    cell_children, cell_raw, cell_resolution, raw_valid, resolution_succ, MAX_RESOLUTION,
};
use crate::error::BuildError;
use crate::key::{cell_key, key_valid, lemma_child_key, lemma_trim_padded, Key};
use crate::order::{
    differs_at, is_prefix, lemma_lex_irreflexive, lemma_lex_total, lemma_take_take,
    strictly_increasing,
};
use fst::raw::Fst;
use h3o::CellIndex;
use std::ops::Bound;
use vstd::bytes::u64_from_le_bytes;
use vstd::prelude::*;
use vstd::slice::slice_subrange;

verus! {

/// `std::ops::Bound`, with its three variants.
#[verifier::external_type_specification]
#[verifier::reject_recursive_types(T)]
pub struct ExBound<T>(Bound<T>);

/// The key that a bound of a range stands for, with whether the bound is
/// inclusive, or nothing when there is no bound.
pub open spec fn bound_key(bound: Bound<CellIndex>) -> Option<(Seq<u8>, bool)> {
    match bound {
        Bound::Included(cell) => Some((cell_key(cell_raw(cell)), true)),
        Bound::Excluded(cell) => Some((cell_key(cell_raw(cell)), false)),
        Bound::Unbounded => None,
    }
}

/// The bounds between which the descendants of the cell with key `parent`
/// are looked for: from its first child to its last, both included. At the
/// finest resolution there is no child.
pub open spec fn child_bounds(parent: Seq<u8>) -> Option<(Seq<u8>, Seq<u8>)> {
    if parent.len() <= MAX_RESOLUTION {
        Some((parent.push(0), parent.push(6)))
    } else {
        None
    }
}

/// The keys among `keys` that `descendants` yields for the cell with key
/// `parent`.
pub open spec fn descendant_keys(keys: Seq<Seq<u8>>, parent: Seq<u8>) -> Seq<Seq<u8>> {
    match child_bounds(parent) {
        Some((first, last)) => keys_within(keys, Some((first, true)), Some((last, true))),
        None => Seq::empty(),
    }
}

/// The entries that `descendants` yields for the cell with key `parent`.
pub open spec fn descendant_entries(entries: Seq<(Seq<u8>, u64)>, parent: Seq<u8>) -> Seq<
    (Seq<u8>, u64),
> {
    match child_bounds(parent) {
        Some((first, last)) => within(entries, Some((first, true)), Some((last, true))),
        None => Seq::empty(),
    }
}

/// A stream of the entries whose keys lie between two bounds.
pub(crate) fn bounded_stream(
    fst: &Fst<Vec<u8>>,
    start: Bound<CellIndex>,
    end: Bound<CellIndex>,
) -> (s: Cursor<'_>)
    requires
        image_sound(fst_data(*fst)),
    ensures
        stream_rest(s) == within(image_entries(fst_data(*fst)), bound_key(start), bound_key(end)),
{
    let builder = fst_range(fst);
    let builder = match start {
        Bound::Included(lower) => {
            let key = Key::from(lower);
            range_ge(builder, key.as_ref())
        },
        Bound::Excluded(lower) => {
            let key = Key::from(lower);
            range_gt(builder, key.as_ref())
        },
        Bound::Unbounded => builder,
    };
    let builder = match end {
        Bound::Included(upper) => {
            let key = Key::from(upper);
            range_le(builder, key.as_ref())
        },
        Bound::Excluded(upper) => {
            let key = Key::from(upper);
            range_lt(builder, key.as_ref())
        },
        Bound::Unbounded => builder,
    };
    range_into_stream(builder)
}

/// The first and the last child of a cell, or nothing at the finest
/// resolution.
pub(crate) fn first_and_last_child(index: CellIndex) -> (children: Option<(CellIndex, CellIndex)>)
    ensures
        match children {
            Some((first, last)) => child_bounds(cell_key(cell_raw(index))) == Some(
                (cell_key(cell_raw(first)), cell_key(cell_raw(last))),
            ),
            None => child_bounds(cell_key(cell_raw(index))) is None,
        },
{
    match resolution_succ(cell_resolution(index)) {
        // If there is no finer resolution there can't be any descendants.
        None => None,
        Some(resolution) => {
            let children = cell_children(index, resolution);
            let start = children[0];
            let end = children[children.len() - 1];
            proof {
                lemma_child_key(cell_raw(start), cell_raw(index), 0);
                lemma_child_key(cell_raw(end), cell_raw(index), 6);
            }
            Some((start, end))
        },
    }
}

/// The cell that stored bytes are the key of.
pub(crate) fn cell_of_key(bytes: &[u8]) -> (cell: Option<CellIndex>)
    requires
        key_valid(bytes@),
    ensures
        cell is Some,
        cell_key(cell_raw(cell.unwrap())) == bytes@,
        raw_valid(cell_raw(cell.unwrap())),
{
    let key = Key::from(bytes);
    proof {
        lemma_trim_padded(bytes@);
        key.lemma_view();
    }
    key.to_cell()
}

/// What lies between the first and the last child of a cell: the keys
/// that go on from the key of the cell with a direction below 6, and the
/// key of the last child itself. What descends from the last child comes
/// behind it.
pub proof fn lemma_between_children(parent: Seq<u8>, key: Seq<u8>)
    ensures
        in_bounds(key, Some((parent.push(0), true)), Some((parent.push(6), true))) <==> is_prefix(
            parent,
            key,
        ) && key.len() > parent.len() && (key[parent.len() as int] < 6 || key == parent.push(6)),
{
    let low = parent.push(0);
    let high = parent.push(6);
    let n = parent.len() as int;
    assert(low.take(n) =~= parent);
    assert(high.take(n) =~= parent);
    if in_bounds(key, Some((low, true)), Some((high, true))) {
        if key == low {
            assert(differs_at(key, high, n));
        } else {
            let at = choose|at: int| differs_at(low, key, at);
            if at < n {
                lemma_take_take(low, key, at, at);
                assert(high.take(at) =~= low.take(at));
                assert(high[at] == low[at]);
                assert(differs_at(high, key, at));
                lemma_lex_total(key, high);
                lemma_lex_irreflexive(key);
            } else {
                lemma_take_take(low, key, at, n);
                assert(key.take(n) == parent);
            }
        }
        assert(is_prefix(parent, key) && key.len() > n);
        if key != high {
            let at = choose|at: int| differs_at(key, high, at);
            if at < n {
                lemma_take_take(key, high, at, at);
                assert(key.take(n)[at] == key[at]);
                assert(high[at] == parent[at]);
            }
        }
    }
    if is_prefix(parent, key) && key.len() > n && (key[n] < 6 || key == high) {
        if key[n] == 0 {
            assert(key.take(n + 1) =~= low) by {
                assert forall|i: int| 0 <= i < n + 1 implies key[i] == low[i] by {
                    if i < n {
                        assert(key.take(n)[i] == key[i]);
                    }
                }
            }
            if key.len() == n + 1 {
                assert(key.take(n + 1) == key);
            } else {
                assert(low.take(n + 1) == low);
                assert(differs_at(low, key, n + 1));
            }
        } else {
            assert(differs_at(low, key, n));
        }
        if key[n] < 6 {
            assert(differs_at(key, high, n));
        }
    }
}

/// The values of entries, in the same order.
pub open spec fn values_of(entries: Seq<(Seq<u8>, u64)>) -> Seq<u64> {
    Seq::new(entries.len(), |i: int| entries[i].1)
}

/// Whether every key of the entries is the key of a cell.
pub open spec fn valid_entries(entries: Seq<(Seq<u8>, u64)>) -> bool {
    forall|i: int| 0 <= i < entries.len() ==> key_valid((#[trigger] entries[i]).0)
}

/// What is left of valid entries behind the first is valid.
pub proof fn lemma_valid_rest(entries: Seq<(Seq<u8>, u64)>)
    requires
        valid_entries(entries),
        entries.len() > 0,
    ensures
        valid_entries(entries.drop_first()),
        keys_of(entries.drop_first()) == keys_of(entries).drop_first(),
        values_of(entries.drop_first()) == values_of(entries).drop_first(),
        keys_of(entries).first() == entries.first().0,
        values_of(entries).first() == entries.first().1,
{
    assert forall|i: int| 0 <= i < entries.drop_first().len() implies key_valid(
        (#[trigger] entries.drop_first()[i]).0,
    ) by {
        assert(entries.drop_first()[i] == entries[i + 1]);
    }
    assert(keys_of(entries.drop_first()) =~= keys_of(entries).drop_first());
    assert(values_of(entries.drop_first()) =~= values_of(entries).drop_first());
}

/// The keys of an index are valid entries.
pub proof fn lemma_valid_entries(entries: Seq<(Seq<u8>, u64)>)
    requires
        cell_keys(keys_of(entries)),
    ensures
        valid_entries(entries),
{
    assert forall|i: int| 0 <= i < entries.len() implies key_valid((#[trigger] entries[i]).0) by {
        assert(keys_of(entries)[i] == entries[i].0);
    }
}

/// With no bound every key is within.
pub proof fn lemma_within_all(entries: Seq<(Seq<u8>, u64)>)
    ensures
        within(entries, None, None) == entries,
    decreases entries.len(),
{
    reveal(Seq::filter);
    if entries.len() > 0 {
        lemma_within_all(entries.drop_last());
        assert(entries.drop_last().push(entries.last()) =~= entries);
    }
}

/// Whether `keys` can be the keys of an index: each the key of a cell, each
/// strictly before the next.
pub open spec fn cell_keys(keys: Seq<Seq<u8>>) -> bool {
    &&& strictly_increasing(keys)
    &&& forall|i: int| 0 <= i < keys.len() ==> key_valid(#[trigger] keys[i])
}

/// The keys that the automaton in `data` holds, in order.
pub open spec fn stored_keys(data: Seq<u8>) -> Seq<Seq<u8>> {
    keys_of(image_entries(data))
}

/// Whether `data` is an index of cells: an automaton as a builder writes
/// it, whose keys are keys of cells in strictly increasing order.
pub open spec fn index_image(data: Seq<u8>) -> bool {
    &&& image_sound(data)
    &&& cell_keys(stored_keys(data))
}

/// Whether `data` opens as a set or a map: the numbers of its footer fit
/// this target, and the automaton accepts it.
pub open spec fn opens(data: Seq<u8>) -> bool {
    footer_fits(data) && image_accepted(data)
}

/// Reads the two numbers that the automaton takes from the footer, the
/// root address and the number of keys, and tells whether both fit an
/// address of this target. Where the automaton does not come to read them
/// there is nothing that could fail to fit.
pub(crate) fn footer_fits_target(data: &[u8]) -> (fits: bool)
    ensures
        fits == footer_fits(data@),
{
    if data.len() < 36 {
        return true;
    }
    let version = u64_from_le_bytes(slice_subrange(data, 0, 8));
    if version == 0 || version > 3 {
        return true;
    }
    let end = if version <= 2 {
        data.len()
    } else {
        data.len() - 4
    };
    let root = u64_from_le_bytes(slice_subrange(data, end - 8, end));
    let count = u64_from_le_bytes(slice_subrange(data, end - 16, end - 8));
    root <= usize::MAX as u64 && count <= usize::MAX as u64
}

/// Opens an automaton over `data`: refuses what holds an address that this
/// target does not have, and leaves the rest to the automaton.
pub(crate) fn open_automaton(data: Vec<u8>) -> (r: Result<Fst<Vec<u8>>, BuildError>)
    ensures
        match r {
            Ok(fst) => opens(data@) && fst_data(fst) == data@,
            Err(e) => !opens(data@) && e is Format && (e.cause() is None <==> !footer_fits(data@)),
        },
{
    if !footer_fits_target(data.as_slice()) {
        return Err(BuildError::Format(None));
    }
    match fst_new(data) {
        Ok(fst) => Ok(fst),
        Err(e) => Err(BuildError::Format(Some(e))),
    }
}

/// The keys among `keys` that lie within the bounds, in the same order.
pub open spec fn keys_within(
    keys: Seq<Seq<u8>>,
    min: Option<(Seq<u8>, bool)>,
    max: Option<(Seq<u8>, bool)>,
) -> Seq<Seq<u8>> {
    keys.filter(|key: Seq<u8>| in_bounds(key, min, max))
}

/// The keys of the entries within bounds are the keys within those bounds.
pub proof fn lemma_keys_within(
    entries: Seq<(Seq<u8>, u64)>,
    min: Option<(Seq<u8>, bool)>,
    max: Option<(Seq<u8>, bool)>,
)
    ensures
        keys_of(within(entries, min, max)) == keys_within(keys_of(entries), min, max),
    decreases entries.len(),
{
    reveal(Seq::filter);
    let by_entry = |e: (Seq<u8>, u64)| in_bounds(e.0, min, max);
    let by_key = |key: Seq<u8>| in_bounds(key, min, max);
    if entries.len() > 0 {
        let rest = entries.drop_last();
        lemma_keys_within(rest, min, max);
        assert(keys_of(entries).drop_last() =~= keys_of(rest));
        assert(keys_of(entries).last() == entries.last().0);
        if in_bounds(entries.last().0, min, max) {
            assert(keys_of(rest.filter(by_entry).push(entries.last())) =~= keys_of(
                rest.filter(by_entry),
            ).push(entries.last().0));
        }
    } else {
        assert(keys_of(entries) =~= Seq::empty());
        assert(keys_of(entries.filter(by_entry)) =~= Seq::empty());
    }
}

/// What is left of an index between bounds is an index.
pub proof fn lemma_within_cell_keys(
    keys: Seq<Seq<u8>>,
    min: Option<(Seq<u8>, bool)>,
    max: Option<(Seq<u8>, bool)>,
)
    requires
        cell_keys(keys),
    ensures
        cell_keys(keys_within(keys, min, max)),
    decreases keys.len(),
{
    reveal(Seq::filter);
    let by_key = |key: Seq<u8>| in_bounds(key, min, max);
    if keys.len() > 0 {
        let rest = keys.drop_last();
        lemma_within_cell_keys(rest, min, max);
        let kept = rest.filter(by_key);
        if in_bounds(keys.last(), min, max) {
            let all = kept.push(keys.last());
            assert forall|i: int, j: int| 0 <= i < j < all.len() implies crate::order::lex_lt(
                all[i],
                all[j],
            ) by {
                if j == kept.len() {
                    rest.lemma_filter_contains_rev(by_key, kept[i]);
                    let at = choose|at: int| 0 <= at < rest.len() && rest[at] == kept[i];
                    assert(keys[at] == kept[i]);
                }
            }
        }
    }
}

} // verus!
