//! The ordered byte-keyed automaton that stores the keys: the types of
//! `fst::raw`, what this library assumes of them, and the calls into them.
//!
//! Nothing in this module is proved. Each function states what the `fst`
//! crate does, in terms of what an automaton holds: its entries, the keys
//! in byte order, each with its value.

use crate::order::lex_lt;
use fst::raw::{Builder, Fst, Node, StreamBuilder};
use fst::{IntoStreamer, Streamer};
use vstd::bytes::spec_u64_from_le_bytes;
use vstd::prelude::*;

verus! {

/// `fst::raw::Fst`, an automaton over a byte region. Nothing inside it is
/// seen here: what it reads is named by `fst_data`.
#[verifier::external_type_specification]
#[verifier::external_body]
#[verifier::reject_recursive_types(D)]
pub struct ExFst<D>(Fst<D>);

/// `fst::raw::Node`, a node of an automaton. What can be read from it on
/// is named by `node_paths`, and of which automata it is a node by
/// `node_within`.
#[verifier::external_type_specification]
#[verifier::external_body]
pub struct ExNode<'f>(Node<'f>);

/// `fst::raw::Builder`, which writes an automaton to a sink. What it has
/// taken is named by `builder_entries`.
#[verifier::external_type_specification]
#[verifier::external_body]
#[verifier::reject_recursive_types(W)]
pub struct ExBuilder<W>(Builder<W>);

/// `fst::raw::StreamBuilder`, a range query in the making: the automaton
/// and two bounds, named by `range_source`, `range_min` and `range_max`.
#[verifier::external_type_specification]
#[verifier::external_body]
#[verifier::reject_recursive_types(A)]
pub struct ExStreamBuilder<'f, A>(StreamBuilder<'f, A>);

/// `fst::automaton::AlwaysMatch`, the filter of a query that lets every
/// key through. It only stands in the type of a range query.
#[verifier::external_type_specification]
#[verifier::external_body]
pub struct ExAlwaysMatch(fst::automaton::AlwaysMatch);

/// `fst::Error`, carried through as it comes.
#[verifier::external_type_specification]
#[verifier::external_body]
pub struct ExError(fst::Error);

/// A stream over entries of an automaton, in key order: an
/// `fst::raw::Stream`, which is bounded by a trait of `fst` and is held
/// here for that reason.
#[verifier::external_body]
pub struct Cursor<'f> {
    inner: fst::raw::Stream<'f>,
}

/// The byte region that an automaton reads.
pub uninterp spec fn fst_data(f: Fst<Vec<u8>>) -> Seq<u8>;

/// Whether `Fst::new` takes `data` for an automaton. It looks at the
/// version, the size and the root address only.
pub uninterp spec fn image_accepted(data: Seq<u8>) -> bool;

/// Whether `data` is what a builder of this version wrote: only then can it
/// be read without a panic, and only then does it hold entries.
pub uninterp spec fn image_sound(data: Seq<u8>) -> bool;

/// The entries that a sound automaton holds, in the order in which they
/// were inserted, which is that of their keys.
pub uninterp spec fn image_entries(data: Seq<u8>) -> Seq<(Seq<u8>, u64)>;

/// What the sink held when the builder was made.
pub uninterp spec fn builder_sink(b: Builder<Vec<u8>>) -> Seq<u8>;

/// The entries that a builder has taken so far, in order.
pub uninterp spec fn builder_entries(b: Builder<Vec<u8>>) -> Seq<(Seq<u8>, u64)>;

/// Whether a node is a node of the automaton over `data`. A node keeps
/// the region up to its own address only, and the node without transitions
/// at which a key ends keeps none: so one node may be within more than one
/// region.
pub uninterp spec fn node_within(n: Node, data: Seq<u8>) -> bool;

/// What can be read from a node on: each byte string that leads from it to a
/// final node, with the sum of the outputs on the way and the final output
/// at its end.
pub uninterp spec fn node_paths(n: Node) -> Map<Seq<u8>, u64>;

/// The input byte and the output of a node's transition number `i`, where
/// it has one.
pub uninterp spec fn node_edge(n: Node, i: usize) -> Option<(u8, u64)>;

/// The entries of the automaton that a range query was made on.
pub uninterp spec fn range_source(b: StreamBuilder<fst::automaton::AlwaysMatch>) -> Seq<
    (Seq<u8>, u64),
>;

/// The lower bound of a range query, with whether it is inclusive.
pub uninterp spec fn range_min(b: StreamBuilder<fst::automaton::AlwaysMatch>) -> Option<
    (Seq<u8>, bool),
>;

/// The upper bound of a range query, with whether it is inclusive.
pub uninterp spec fn range_max(b: StreamBuilder<fst::automaton::AlwaysMatch>) -> Option<
    (Seq<u8>, bool),
>;

/// What an error of the automaton displays of itself.
pub uninterp spec fn error_display(e: fst::Error) -> Seq<char>;

/// The entries that a stream has yet to yield, in order.
pub uninterp spec fn stream_rest(s: Cursor) -> Seq<(Seq<u8>, u64)>;

/// The keys of entries, in the same order.
pub open spec fn keys_of(entries: Seq<(Seq<u8>, u64)>) -> Seq<Seq<u8>> {
    Seq::new(entries.len(), |i: int| entries[i].0)
}

/// Whether `key` may follow the entries taken so far: there are none, or it
/// comes strictly after the last.
pub open spec fn may_follow(entries: Seq<(Seq<u8>, u64)>, key: Seq<u8>) -> bool {
    entries.len() > 0 ==> lex_lt(entries.last().0, key)
}

/// Whether `paths` holds the entries and nothing else: each key leads to
/// its value, and every path is the key of an entry.
pub open spec fn holds(paths: Map<Seq<u8>, u64>, entries: Seq<(Seq<u8>, u64)>) -> bool {
    &&& forall|i: int|
        0 <= i < entries.len() ==> paths.contains_key(#[trigger] entries[i].0)
            && paths[entries[i].0] == entries[i].1
    &&& forall|k: Seq<u8>| #[trigger]
        paths.contains_key(k) ==> exists|i: int| 0 <= i < entries.len() && entries[i].0 == k
}

/// Whether `child` is what `parent` goes on with after the bytes `read` and
/// the output `out`: the paths of `parent` that start with `read`, without
/// those bytes, each worth `out` less.
pub open spec fn goes_on(
    child: Map<Seq<u8>, u64>,
    parent: Map<Seq<u8>, u64>,
    read: Seq<u8>,
    out: int,
) -> bool {
    forall|w: Seq<u8>|
        (#[trigger] child.contains_key(w) <==> parent.contains_key(read + w)) && (
        child.contains_key(w) ==> parent[read + w] == out + child[w])
}

/// Whether there is a path at all.
pub open spec fn leads_on(paths: Map<Seq<u8>, u64>) -> bool {
    exists|w: Seq<u8>| paths.contains_key(w)
}

/// Whether a node can be read: it is a node of an automaton that a builder
/// wrote.
pub open spec fn node_readable(n: Node) -> bool {
    exists|data: Seq<u8>| #[trigger] node_within(n, data) && image_sound(data)
}

/// Whether no path starts with the byte `b`.
pub open spec fn none_through(paths: Map<Seq<u8>, u64>, b: u8) -> bool {
    forall|w: Seq<u8>| #[trigger] paths.contains_key(w) && w.len() > 0 ==> w[0] != b
}

/// Whether `key` lies within the bounds.
pub open spec fn in_bounds(
    key: Seq<u8>,
    min: Option<(Seq<u8>, bool)>,
    max: Option<(Seq<u8>, bool)>,
) -> bool {
    &&& match min {
        Some((low, inclusive)) => lex_lt(low, key) || (inclusive && low == key),
        None => true,
    }
    &&& match max {
        Some((high, inclusive)) => lex_lt(key, high) || (inclusive && high == key),
        None => true,
    }
}

/// The entries whose keys lie within the bounds, in the same order.
pub open spec fn within(
    entries: Seq<(Seq<u8>, u64)>,
    min: Option<(Seq<u8>, bool)>,
    max: Option<(Seq<u8>, bool)>,
) -> Seq<(Seq<u8>, u64)> {
    entries.filter(|e: (Seq<u8>, u64)| in_bounds(e.0, min, max))
}

/// The number that the eight bytes of `data` from `at` on hold, the lowest
/// byte first.
pub open spec fn number_at(data: Seq<u8>, at: int) -> u64 {
    spec_u64_from_le_bytes(data.subrange(at, at + 8))
}

/// Whether `Fst::new` goes on to read the footer of `data`: there are 36
/// bytes at least, and the version at the start is one from 1 to 3.
pub open spec fn has_footer(data: Seq<u8>) -> bool {
    data.len() >= 36 && 1 <= number_at(data, 0) <= 3
}

/// Where the footer ends: at the checksum, which the versions up to 2 do
/// not have.
pub open spec fn footer_end(data: Seq<u8>) -> int {
    if number_at(data, 0) <= 2 {
        data.len() as int
    } else {
        data.len() - 4
    }
}

/// Whether the two numbers that `Fst::new` takes from the footer, the root
/// address and before it the number of keys, fit an address of this target.
pub open spec fn footer_fits(data: Seq<u8>) -> bool {
    has_footer(data) ==> number_at(data, footer_end(data) - 8) <= usize::MAX && number_at(
        data,
        footer_end(data) - 16,
    ) <= usize::MAX
}

/// `Fst::new`: an automaton over `data` where the header is accepted, an
/// error otherwise. It turns the two numbers of the footer into addresses,
/// and panics where one does not fit.
#[verifier::external_body]
pub(crate) fn fst_new(data: Vec<u8>) -> (r: Result<Fst<Vec<u8>>, fst::Error>)
    requires
        footer_fits(data@),
    ensures
        r is Ok <==> image_accepted(data@),
        r is Ok ==> fst_data(r.unwrap()) == data@,
{
    Fst::new(data)
}

/// `Fst::len`: the number of entries, which the builder wrote into the
/// footer.
#[verifier::external_body]
pub(crate) fn fst_len(f: &Fst<Vec<u8>>) -> (n: usize)
    requires
        image_sound(fst_data(*f)),
    ensures
        n == image_entries(fst_data(*f)).len(),
{
    f.len()
}

/// `Fst::is_empty`: whether there is no entry.
#[verifier::external_body]
pub(crate) fn fst_is_empty(f: &Fst<Vec<u8>>) -> (empty: bool)
    requires
        image_sound(fst_data(*f)),
    ensures
        empty <==> image_entries(fst_data(*f)).len() == 0,
{
    f.is_empty()
}

/// `Fst::as_bytes`: the byte region.
#[verifier::external_body]
pub(crate) fn fst_as_bytes(f: &Fst<Vec<u8>>) -> (bytes: &[u8])
    ensures
        bytes@ == fst_data(*f),
{
    f.as_bytes()
}

/// `Fst::root`: the node from which every key of the automaton is read, each
/// to its value.
#[verifier::external_body]
pub(crate) fn fst_root(f: &Fst<Vec<u8>>) -> (root: Node<'_>)
    requires
        image_sound(fst_data(*f)),
    ensures
        node_within(root, fst_data(*f)),
        holds(node_paths(root), image_entries(fst_data(*f))),
{
    f.root()
}

/// `Node::find_input`: the number of the transition that reads `b`, or
/// nothing where no path from the node starts with `b`.
#[verifier::external_body]
pub(crate) fn node_find_input(n: &Node<'_>, b: u8) -> (i: Option<usize>)
    requires
        node_readable(*n),
    ensures
        i is Some ==> node_edge(*n, i.unwrap()) is Some && node_edge(*n, i.unwrap()).unwrap().0
            == b,
        i is None ==> none_through(node_paths(*n), b),
{
    n.find_input(b)
}

/// `Node::transition`, its output: what the transition adds to the value.
#[verifier::external_body]
pub(crate) fn node_output(n: &Node<'_>, i: usize) -> (out: u64)
    requires
        node_readable(*n),
        node_edge(*n, i) is Some,
    ensures
        out == node_edge(*n, i).unwrap().1,
{
    n.transition(i).out.value()
}

/// `Fst::node` on `Node::transition_addr`: the node that a transition
/// leads to, from which the rest of each path through the transition is
/// read. The address is one of the automaton that the node is within. A
/// builder writes a transition only on the way to a key, so there is such
/// a path.
#[verifier::external_body]
pub(crate) fn fst_follow<'f>(f: &'f Fst<Vec<u8>>, n: &Node<'f>, i: usize) -> (next: Node<'f>)
    requires
        image_sound(fst_data(*f)),
        node_within(*n, fst_data(*f)),
        node_edge(*n, i) is Some,
    ensures
        node_within(next, fst_data(*f)),
        goes_on(
            node_paths(next),
            node_paths(*n),
            seq![node_edge(*n, i).unwrap().0],
            node_edge(*n, i).unwrap().1 as int,
        ),
        leads_on(node_paths(next)),
{
    f.node(n.transition_addr(i))
}

/// `Node::is_final`: whether a key ends at the node.
#[verifier::external_body]
pub(crate) fn node_is_final(n: &Node<'_>) -> (is_final: bool)
    requires
        node_readable(*n),
    ensures
        is_final <==> node_paths(*n).contains_key(Seq::empty()),
{
    n.is_final()
}

/// `Node::final_output`: what is left of the value of the key that ends at
/// the node.
#[verifier::external_body]
pub(crate) fn node_final_output(n: &Node<'_>) -> (out: u64)
    requires
        node_readable(*n),
        node_paths(*n).contains_key(Seq::empty()),
    ensures
        out == node_paths(*n)[Seq::empty()],
{
    n.final_output().value()
}

/// `Fst::stream`: a stream of all entries.
#[verifier::external_body]
pub(crate) fn fst_stream(f: &Fst<Vec<u8>>) -> (s: Cursor<'_>)
    requires
        image_sound(fst_data(*f)),
    ensures
        stream_rest(s) == image_entries(fst_data(*f)),
{
    Cursor { inner: f.stream() }
}

/// `Fst::range`: a range query with no bound yet.
#[verifier::external_body]
pub(crate) fn fst_range(f: &Fst<Vec<u8>>) -> (b: StreamBuilder<'_>)
    requires
        image_sound(fst_data(*f)),
    ensures
        range_source(b) == image_entries(fst_data(*f)),
        range_min(b) is None,
        range_max(b) is None,
{
    f.range()
}

/// `StreamBuilder::ge`: sets an inclusive lower bound.
#[verifier::external_body]
pub(crate) fn range_ge<'f>(b: StreamBuilder<'f>, bound: &[u8]) -> (r: StreamBuilder<'f>)
    ensures
        range_source(r) == range_source(b),
        range_min(r) == Some((bound@, true)),
        range_max(r) == range_max(b),
{
    b.ge(bound)
}

/// `StreamBuilder::gt`: sets an exclusive lower bound.
#[verifier::external_body]
pub(crate) fn range_gt<'f>(b: StreamBuilder<'f>, bound: &[u8]) -> (r: StreamBuilder<'f>)
    ensures
        range_source(r) == range_source(b),
        range_min(r) == Some((bound@, false)),
        range_max(r) == range_max(b),
{
    b.gt(bound)
}

/// `StreamBuilder::le`: sets an inclusive upper bound.
#[verifier::external_body]
pub(crate) fn range_le<'f>(b: StreamBuilder<'f>, bound: &[u8]) -> (r: StreamBuilder<'f>)
    ensures
        range_source(r) == range_source(b),
        range_min(r) == range_min(b),
        range_max(r) == Some((bound@, true)),
{
    b.le(bound)
}

/// `StreamBuilder::lt`: sets an exclusive upper bound.
#[verifier::external_body]
pub(crate) fn range_lt<'f>(b: StreamBuilder<'f>, bound: &[u8]) -> (r: StreamBuilder<'f>)
    ensures
        range_source(r) == range_source(b),
        range_min(r) == range_min(b),
        range_max(r) == Some((bound@, false)),
{
    b.lt(bound)
}

/// `StreamBuilder::into_stream`: a stream of the entries within the bounds.
#[verifier::external_body]
pub(crate) fn range_into_stream<'f>(b: StreamBuilder<'f>) -> (s: Cursor<'f>)
    ensures
        stream_rest(s) == within(range_source(b), range_min(b), range_max(b)),
{
    Cursor { inner: b.into_stream() }
}

/// `Stream::next`: the first of the entries that are left, which leaves the
/// stream, or nothing when none is left.
#[verifier::external_body]
pub(crate) fn stream_next(s: &mut Cursor<'_>) -> (item: Option<(Vec<u8>, u64)>)
    ensures
        item is Some <==> stream_rest(*old(s)).len() > 0,
        item is Some ==> item.unwrap().0@ == stream_rest(*old(s))[0].0 && item.unwrap().1
            == stream_rest(*old(s))[0].1,
        item is Some ==> stream_rest(*final(s)) == stream_rest(*old(s)).drop_first(),
        item is None ==> stream_rest(*final(s)).len() == 0,
{
    s.inner.next().map(|(key, out)| (key.to_vec(), out.value()))
}

/// `Builder::memory`: a builder with an empty sink and no entry.
#[verifier::external_body]
pub(crate) fn builder_memory() -> (b: Builder<Vec<u8>>)
    ensures
        builder_sink(b).len() == 0,
        builder_entries(b).len() == 0,
{
    Builder::memory()
}

/// `Builder::new` on a vector: a builder that writes behind what the vector
/// holds. Writing to a vector does not fail.
#[verifier::external_body]
pub(crate) fn builder_new(sink: Vec<u8>) -> (r: Result<Builder<Vec<u8>>, fst::Error>)
    ensures
        r is Ok,
        builder_sink(r.unwrap()) == sink@,
        builder_entries(r.unwrap()).len() == 0,
{
    Builder::new(sink)
}

/// `Builder::insert`: takes the entry where its key comes strictly after
/// the last one taken, and fails otherwise, leaving the builder as it was.
#[verifier::external_body]
pub(crate) fn builder_insert(b: &mut Builder<Vec<u8>>, key: &[u8], value: u64) -> (r: Result<
    (),
    fst::Error,
>)
    ensures
        r is Ok <==> may_follow(builder_entries(*old(b)), key@),
        r is Ok ==> builder_entries(*final(b)) == builder_entries(*old(b)).push((key@, value)),
        r is Err ==> builder_entries(*final(b)) == builder_entries(*old(b)),
        builder_sink(*final(b)) == builder_sink(*old(b)),
{
    b.insert(key, value)
}

/// `Builder::into_inner` on a vector: what the sink held, and behind it an
/// automaton with the entries taken. The two numbers of its footer were
/// addresses of this target.
#[verifier::external_body]
pub(crate) fn builder_into_inner(b: Builder<Vec<u8>>) -> (r: Result<Vec<u8>, fst::Error>)
    ensures
        r is Ok,
        r.unwrap()@.len() >= builder_sink(b).len(),
        r.unwrap()@.take(builder_sink(b).len() as int) == builder_sink(b),
        image_sound(r.unwrap()@.skip(builder_sink(b).len() as int)),
        image_accepted(r.unwrap()@.skip(builder_sink(b).len() as int)),
        footer_fits(r.unwrap()@.skip(builder_sink(b).len() as int)),
        image_entries(r.unwrap()@.skip(builder_sink(b).len() as int)) == builder_entries(b),
{
    b.into_inner()
}

/// `Builder::finish` on a vector: writes the automaton and drops the sink.
#[verifier::external_body]
pub(crate) fn builder_finish(b: Builder<Vec<u8>>) -> (r: Result<(), fst::Error>)
    ensures
        r is Ok,
{
    b.finish()
}

/// `Builder::into_fst`: the automaton with the entries taken. It reads back
/// what the builder wrote, so the sink must have been empty.
#[verifier::external_body]
pub(crate) fn builder_into_fst(b: Builder<Vec<u8>>) -> (f: Fst<Vec<u8>>)
    requires
        builder_sink(b).len() == 0,
    ensures
        image_sound(fst_data(f)),
        image_accepted(fst_data(f)),
        footer_fits(fst_data(f)),
        image_entries(fst_data(f)) == builder_entries(b),
{
    b.into_fst()
}

/// `Display` of `fst::Error`: what the error displays of itself.
#[verifier::external_body]
pub(crate) fn error_text(e: &fst::Error) -> (text: String)
    ensures
        text@ == error_display(*e),
{
    format!("{e}")
}

} // verus!
