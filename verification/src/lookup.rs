//! The walk that finds the shortest prefix of a key that is stored.

use crate::automaton::{
    fst_data, fst_follow, fst_root, goes_on, holds, image_entries, image_sound, keys_of,
    node_final_output, node_find_input, node_is_final, node_output, node_paths, node_within,
    none_through,
};
use crate::cell::{cell_raw, raw_valid};
use crate::key::{
    cell_key, lemma_cell_key, lemma_key_injective, lemma_prefix_valid, lemma_trim_padded, Key,
};
use crate::order::{is_prefix, lemma_lex_irreflexive, strictly_increasing};
use fst::raw::Fst;
use h3o::CellIndex;
use vstd::prelude::*;
use vstd::slice::slice_subrange;

verus! {

/// Whether `key` with `value` is one of the entries.
pub open spec fn has_entry(entries: Seq<(Seq<u8>, u64)>, key: Seq<u8>, value: u64) -> bool {
    exists|i: int| 0 <= i < entries.len() && #[trigger] entries[i] == (key, value)
}

/// Whether none of the prefixes of `query` with a length from `from` to
/// `to` is among `keys`.
pub open spec fn none_stored(keys: Seq<Seq<u8>>, query: Seq<u8>, from: int, to: int) -> bool {
    forall|m: int| from <= m <= to ==> !keys.contains(#[trigger] query.take(m))
}

/// Whether `found` is the shortest prefix of `query` that is among `keys`
/// and has a byte at least, or nothing where there is no such prefix.
pub open spec fn shortest_stored(
    keys: Seq<Seq<u8>>,
    query: Seq<u8>,
    found: Option<Seq<u8>>,
) -> bool {
    match found {
        Some(key) => {
            &&& 1 <= key.len()
            &&& is_prefix(key, query)
            &&& keys.contains(key)
            &&& none_stored(keys, query, 1, key.len() - 1)
        },
        None => none_stored(keys, query, 1, query.len() as int),
    }
}

/// Walks the automaton along `key` and stops at the first node at which a
/// stored key ends: the length of that prefix and its value, or nothing
/// where no prefix of `key` is stored.
pub(crate) fn find_stored_prefix(fst: &Fst<Vec<u8>>, key: &[u8]) -> (found: Option<(usize, u64)>)
    requires
        image_sound(fst_data(*fst)),
    ensures
        match found {
            Some((n, value)) => {
                &&& n <= key@.len()
                &&& shortest_stored(
                    keys_of(image_entries(fst_data(*fst))),
                    key@,
                    Some(key@.take(n as int)),
                )
                &&& has_entry(image_entries(fst_data(*fst)), key@.take(n as int), value)
            },
            None => shortest_stored(keys_of(image_entries(fst_data(*fst))), key@, None),
        },
{
    let ghost entries = image_entries(fst_data(*fst));
    let mut node = fst_root(fst);
    let ghost root = node_paths(node);
    let mut output: u64 = 0;
    let mut i: usize = 0;
    proof {
        assert(key@.take(0) =~= Seq::empty());
        assert forall|w: Seq<u8>|
            (#[trigger] root.contains_key(w) <==> root.contains_key(key@.take(0) + w)) && (
            root.contains_key(w) ==> root[key@.take(0) + w] == 0 + root[w]) by {
            assert(key@.take(0) + w =~= w);
        }
    }
    while i < key.len()
        invariant
            i <= key.len(),
            entries == image_entries(fst_data(*fst)),
            image_sound(fst_data(*fst)),
            node_within(node, fst_data(*fst)),
            holds(root, entries),
            goes_on(node_paths(node), root, key@.take(i as int), output as int),
            none_stored(keys_of(entries), key@, 1, i as int),
        decreases key.len() - i,
    {
        let b = key[i];
        let idx = match node_find_input(&node, b) {
            Some(idx) => idx,
            None => {
                proof {
                    lemma_dead_end(root, entries, node_paths(node), key@, i as int, output as int);
                }
                return None;
            },
        };
        let out = node_output(&node, idx);
        let next = fst_follow(fst, &node, idx);
        proof {
            lemma_step(
                root,
                node_paths(node),
                node_paths(next),
                key@,
                i as int,
                output as int,
                out as int,
            );
            let w = choose|w: Seq<u8>| node_paths(next).contains_key(w);
            assert(node_paths(next).contains_key(w));
            assert(root[key@.take(i + 1) + w] == output + out + node_paths(next)[w]);
        }
        output = output + out;
        node = next;
        i += 1;
        if node_is_final(&node) {
            let last = node_final_output(&node);
            proof {
                let prefix = key@.take(i as int);
                assert(prefix + Seq::<u8>::empty() =~= prefix);
                assert(root.contains_key(prefix));
                assert(root[prefix] == output + last);
                let at = choose|at: int| 0 <= at < entries.len() && entries[at].0 == prefix;
                assert(root[entries[at].0] == entries[at].1);
                assert(entries[at] == (prefix, (output + last) as u64));
                assert(keys_of(entries)[at] == prefix);
            }
            return Some((i, output + last));
        }
        proof {
            let prefix = key@.take(i as int);
            assert(prefix + Seq::<u8>::empty() =~= prefix);
            assert(!root.contains_key(prefix));
            if keys_of(entries).contains(prefix) {
                let at = choose|at: int| 0 <= at < entries.len() && keys_of(entries)[at] == prefix;
                assert(root.contains_key(entries[at].0));
            }
        }
    }
    None
}

/// The key of the cell that was found, if any.
pub open spec fn found_key(found: Option<(CellIndex, u64)>) -> Option<Seq<u8>> {
    match found {
        Some((cell, _)) => Some(cell_key(cell_raw(cell))),
        None => None,
    }
}

/// Looks a cell up: the stored cell that is the cell itself or its coarsest
/// ancestor, with the value stored under it, or nothing where neither the
/// cell nor an ancestor is stored.
pub(crate) fn find_cell(fst: &Fst<Vec<u8>>, index: CellIndex) -> (found: Option<(CellIndex, u64)>)
    requires
        image_sound(fst_data(*fst)),
    ensures
        shortest_stored(
            keys_of(image_entries(fst_data(*fst))),
            cell_key(cell_raw(index)),
            found_key(found),
        ),
        found matches Some((cell, value)) ==> has_entry(
            image_entries(fst_data(*fst)),
            cell_key(cell_raw(cell)),
            value,
        ),
        raw_valid(cell_raw(index)),
        found matches Some((cell, _)) ==> raw_valid(cell_raw(cell)),
{
    let key = Key::from(index);
    let bytes = key.as_ref();
    match find_stored_prefix(fst, bytes) {
        Some((n, value)) => {
            let prefix = Key::from(slice_subrange(bytes, 0, n));
            proof {
                let stored = bytes@.take(n as int);
                lemma_prefix_valid(key@, n as int);
                assert(bytes@.subrange(0, n as int) == stored);
                lemma_trim_padded(stored);
                prefix.lemma_view();
            }
            match prefix.to_cell() {
                Some(cell) => Some((cell, value)),
                None => None,
            }
        },
        None => None,
    }
}

/// What a lookup finds is determined by the keys and the query.
pub proof fn lemma_shortest_unique(
    keys: Seq<Seq<u8>>,
    query: Seq<u8>,
    a: Option<Seq<u8>>,
    b: Option<Seq<u8>>,
)
    requires
        shortest_stored(keys, query, a),
        shortest_stored(keys, query, b),
    ensures
        a == b,
{
    match (a, b) {
        (Some(x), Some(y)) => {
            assert(query.take(x.len() as int) == x);
            assert(query.take(y.len() as int) == y);
            if x.len() < y.len() {
                assert(!keys.contains(query.take(x.len() as int)));
            } else if y.len() < x.len() {
                assert(!keys.contains(query.take(y.len() as int)));
            }
        },
        (Some(x), None) => {
            assert(query.take(x.len() as int) == x);
        },
        (None, Some(y)) => {
            assert(query.take(y.len() as int) == y);
        },
        (None, None) => {},
    }
}

/// Where keys are in strictly increasing order, a key is stored with one
/// value only.
pub proof fn lemma_entry_unique(entries: Seq<(Seq<u8>, u64)>, key: Seq<u8>, a: u64, b: u64)
    requires
        strictly_increasing(keys_of(entries)),
        has_entry(entries, key, a),
        has_entry(entries, key, b),
    ensures
        a == b,
{
    let i = choose|i: int| 0 <= i < entries.len() && #[trigger] entries[i] == (key, a);
    let j = choose|j: int| 0 <= j < entries.len() && #[trigger] entries[j] == (key, b);
    assert(keys_of(entries)[i] == key);
    assert(keys_of(entries)[j] == key);
    lemma_lex_irreflexive(key);
}

/// Ancestor containment: where a single cell is stored, looking a cell up
/// finds the stored cell if it is the cell looked up or an ancestor of it,
/// and nothing otherwise.
pub proof fn lemma_ancestor_containment(stored: u64, query: u64, found: Option<u64>)
    requires
        raw_valid(stored),
        raw_valid(query),
        found is Some ==> raw_valid(found.unwrap()),
        shortest_stored(seq![cell_key(stored)], cell_key(query), raw_key_of(found)),
    ensures
        descends_from(query, stored) ==> found == Some(stored),
        !descends_from(query, stored) ==> found is None,
{
    let keys = seq![cell_key(stored)];
    let key = cell_key(stored);
    lemma_cell_key(stored);
    assert(keys[0] == key);
    if descends_from(query, stored) {
        assert(cell_key(query).take(key.len() as int) == key);
        assert forall|m: int| 1 <= m <= key.len() - 1 implies !keys.contains(
            #[trigger] cell_key(query).take(m),
        ) by {
            assert(cell_key(query).take(m).len() != key.len());
        }
        lemma_shortest_unique(keys, cell_key(query), raw_key_of(found), Some(key));
        lemma_key_injective(found.unwrap(), stored);
    } else if found is Some {
        let other = cell_key(found.unwrap());
        assert(keys.contains(other));
        assert(cell_key(query).take(other.len() as int) == other);
    }
}

/// Map value integrity: where a single cell is stored with a value,
/// looking up the cell or a descendant of it finds the stored cell with
/// that value.
pub proof fn lemma_value_integrity(stored: u64, value: u64, query: u64, found: Option<(u64, u64)>)
    requires
        raw_valid(stored),
        raw_valid(query),
        descends_from(query, stored),
        found is Some ==> raw_valid(found.unwrap().0),
        shortest_stored(seq![cell_key(stored)], cell_key(query), raw_pair_key_of(found)),
        found is Some ==> has_entry(
            seq![(cell_key(stored), value)],
            cell_key(found.unwrap().0),
            found.unwrap().1,
        ),
    ensures
        found == Some((stored, value)),
{
    let first = match found {
        Some((cell, _)) => Some(cell),
        None => None,
    };
    lemma_ancestor_containment(stored, query, first);
    let entries = seq![(cell_key(stored), value)];
    assert(entries[0] == (cell_key(stored), value));
}

/// Whether the cell `cell` is the cell `ancestor` or descends from it: the
/// key of the ancestor is a prefix of its key.
pub open spec fn descends_from(cell: u64, ancestor: u64) -> bool {
    is_prefix(cell_key(ancestor), cell_key(cell))
}

/// The key of the cell with the given bits, if there is one.
pub open spec fn raw_key_of(cell: Option<u64>) -> Option<Seq<u8>> {
    match cell {
        Some(bits) => Some(cell_key(bits)),
        None => None,
    }
}

/// The key of the cell with the given bits, if there is a pair.
pub open spec fn raw_pair_key_of(pair: Option<(u64, u64)>) -> Option<Seq<u8>> {
    match pair {
        Some((bits, _)) => Some(cell_key(bits)),
        None => None,
    }
}

/// Reading one byte more: what the next node reads is what the root reads
/// behind the longer prefix.
proof fn lemma_step(
    root: Map<Seq<u8>, u64>,
    node: Map<Seq<u8>, u64>,
    next: Map<Seq<u8>, u64>,
    key: Seq<u8>,
    i: int,
    output: int,
    out: int,
)
    requires
        0 <= i < key.len(),
        goes_on(node, root, key.take(i), output),
        goes_on(next, node, seq![key[i]], out),
    ensures
        goes_on(next, root, key.take(i + 1), output + out),
{
    assert forall|w: Seq<u8>|
        (#[trigger] next.contains_key(w) <==> root.contains_key(key.take(i + 1) + w)) && (
        next.contains_key(w) ==> root[key.take(i + 1) + w] == output + out + next[w]) by {
        let through = seq![key[i]] + w;
        assert(key.take(i + 1) + w =~= key.take(i) + through);
        assert(node.contains_key(through) <==> root.contains_key(key.take(i) + through));
    }
}

/// Where no path goes on with the next byte of the key, no longer prefix of
/// the key is stored.
proof fn lemma_dead_end(
    root: Map<Seq<u8>, u64>,
    entries: Seq<(Seq<u8>, u64)>,
    node: Map<Seq<u8>, u64>,
    key: Seq<u8>,
    i: int,
    output: int,
)
    requires
        0 <= i < key.len(),
        holds(root, entries),
        goes_on(node, root, key.take(i), output),
        none_through(node, key[i]),
        none_stored(keys_of(entries), key, 1, i),
    ensures
        none_stored(keys_of(entries), key, 1, key.len() as int),
{
    assert forall|m: int| 1 <= m <= key.len() implies !keys_of(entries).contains(
        #[trigger] key.take(m),
    ) by {
        if m > i {
            let rest = key.subrange(i, m);
            assert(key.take(m) =~= key.take(i) + rest);
            assert(rest[0] == key[i]);
            assert(node.contains_key(rest) <==> root.contains_key(key.take(i) + rest));
            if keys_of(entries).contains(key.take(m)) {
                let at = choose|at: int|
                    0 <= at < entries.len() && keys_of(entries)[at] == key.take(m);
                assert(root.contains_key(entries[at].0));
            }
        }
    }
}

} // verus!
