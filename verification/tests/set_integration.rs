use h3o::{CellIndex, Resolution};
use h3o_ice::{
    BuildError, FrozenSet, FrozenSetBuilder, FrozenSetIterator, FrozenSetRange,
};
use std::ops::Bound;

fn cell_index(value: u64) -> CellIndex {
    CellIndex::try_from(value).expect("invalid cell")
}

fn test_cells() -> Vec<CellIndex> {
    cell_index(0x85318d83fffffff)
        .children(Resolution::Seven)
        .collect()
}

fn collect(mut cells: FrozenSetIterator<'_>) -> Vec<CellIndex> {
    let mut all = Vec::new();
    while let Some(cell) = cells.next() {
        all.push(cell);
    }
    all
}

fn collect_range(mut cells: FrozenSetRange<'_>) -> Vec<CellIndex> {
    let mut all = Vec::new();
    while let Some(cell) = cells.next() {
        all.push(cell);
    }
    all
}

#[test]
fn set_len() {
    let empty = FrozenSet::try_from_iter(&[]).expect("failed to create set");
    assert_eq!(empty.len(), 0, "empty set");

    let single = FrozenSet::try_from_iter(&[cell_index(0x8a1fb46622dffff)])
        .expect("failed to create set");
    assert_eq!(single.len(), 1, "single element");

    let multiple =
        FrozenSet::try_from_iter(&test_cells()).expect("failed to create set");
    assert_eq!(multiple.len(), 49, "multiple elements");
}

#[test]
fn set_is_empty() {
    let empty = FrozenSet::try_from_iter(&[]).expect("failed to create set");
    assert!(empty.is_empty(), "empty set");

    let single = FrozenSet::try_from_iter(&[cell_index(0x8a1fb46622dffff)])
        .expect("failed to create set");
    assert!(!single.is_empty(), "single element");
}

#[test]
fn set_contains() {
    let cell = cell_index(0x8a1fb46622dffff);
    let child = cell_index(0x8b1fb46622d8fff);
    let descendant = cell_index(0x8d1fb46622d85bf);
    let set =
        FrozenSet::try_from_iter(&[cell]).expect("failed to create set");

    // Exact membership works.
    assert_eq!(set.contains(cell), Some(cell), "exact match");
    // Child membership works too.
    assert_eq!(set.contains(child), Some(cell), "direct child");
    // Even through multiple levels.
    assert_eq!(set.contains(descendant), Some(cell), "descendant");

    let not_related = cell_index(0x85283473fffffff);
    assert!(set.contains(not_related).is_none(), "not related");
}

#[test]
fn set_load_from_bytes() {
    // Build set in memory.
    let mut builder = FrozenSetBuilder::memory();
    builder
        .insert(cell_index(0x85283473fffffff))
        .expect("failed to insert");
    builder
        .extend_iter(&test_cells())
        .expect("failed to extend");
    let expected = builder.into_set();

    // Get the underlying bytes.
    let bytes = expected.as_bytes();

    // Rebuild the set from thoses bytes.
    let result = FrozenSet::new(bytes.to_vec()).expect("valid set");

    // Data is exactly the same.
    assert_eq!(collect(expected.iter()), collect(result.iter()));
}

#[test]
fn set_io_build() {
    let buffer = Vec::new();
    let mut builder = FrozenSetBuilder::new(buffer).expect("builder");
    builder
        .insert(cell_index(0x85283473fffffff))
        .expect("failed to insert");
    builder
        .extend_iter(&test_cells())
        .expect("failed to extend");
    builder.finish().expect("flushing set");
}

#[test]
fn set_wrong_order() {
    // Building set from non-sorted input fails.
    let mut builder = FrozenSetBuilder::memory();
    builder
        .insert(cell_index(0x85318d83fffffff))
        .expect("failed to insert");
    let err = builder
        .insert(cell_index(0x85283473fffffff))
        .expect_err("inserted out of order");

    assert!(err.source().is_some(), "preserve root cause");
    assert!(!err.message().is_empty(), "non-empty error");
}

#[test]
fn set_range() {
    let set = FrozenSet::try_from_iter(
        &cell_index(0x85318d83fffffff)
            .children(Resolution::Six)
            .collect::<Vec<_>>(),
    )
    .expect("failed to create set");

    // A (half-open) range bounded inclusively below and exclusively above.
    let result = collect_range(set.range((
        Bound::Included(cell_index(0x86318d817ffffff)),
        Bound::Excluded(cell_index(0x86318d827ffffff)),
    )));
    let expected = vec![
        cell_index(0x86318d817ffffff),
        cell_index(0x86318d81fffffff),
    ];
    assert_eq!(result, expected, "Range");

    // An open range bounded exclusively below and above.
    let result = collect_range(set.range((
        Bound::Excluded(cell_index(0x86318d817ffffff)),
        Bound::Excluded(cell_index(0x86318d827ffffff)),
    )));
    let expected = vec![cell_index(0x86318d81fffffff)];
    assert_eq!(result, expected, "RangeOpen");

    // A range only bounded inclusively below.
    let result = collect_range(set.range((
        Bound::Included(cell_index(0x86318d817ffffff)),
        Bound::Unbounded,
    )));
    let expected = vec![
        cell_index(0x86318d817ffffff),
        cell_index(0x86318d81fffffff),
        cell_index(0x86318d827ffffff),
        cell_index(0x86318d82fffffff),
        cell_index(0x86318d837ffffff),
    ];
    assert_eq!(result, expected, "RangeFrom");

    // An unbounded range.
    let result = collect_range(
        set.range((Bound::<CellIndex>::Unbounded, Bound::Unbounded)),
    );
    let expected = vec![
        cell_index(0x86318d807ffffff),
        cell_index(0x86318d80fffffff),
        cell_index(0x86318d817ffffff),
        cell_index(0x86318d81fffffff),
        cell_index(0x86318d827ffffff),
        cell_index(0x86318d82fffffff),
        cell_index(0x86318d837ffffff),
    ];
    assert_eq!(result, expected, "RangeFull");

    // A range bounded inclusively below and above.
    let result = collect_range(set.range((
        Bound::Included(cell_index(0x86318d817ffffff)),
        Bound::Included(cell_index(0x86318d827ffffff)),
    )));
    let expected = vec![
        cell_index(0x86318d817ffffff),
        cell_index(0x86318d81fffffff),
        cell_index(0x86318d827ffffff),
    ];
    assert_eq!(result, expected, "RangeInclusive");

    // A range only bounded exclusively above.
    let result = collect_range(set.range((
        Bound::Unbounded,
        Bound::Excluded(cell_index(0x86318d827ffffff)),
    )));
    let expected = vec![
        cell_index(0x86318d807ffffff),
        cell_index(0x86318d80fffffff),
        cell_index(0x86318d817ffffff),
        cell_index(0x86318d81fffffff),
    ];
    assert_eq!(result, expected, "RangeTo");

    // A range only bounded inclusively above.
    let result = collect_range(set.range((
        Bound::Unbounded,
        Bound::Included(cell_index(0x86318d827ffffff)),
    )));
    let expected = vec![
        cell_index(0x86318d807ffffff),
        cell_index(0x86318d80fffffff),
        cell_index(0x86318d817ffffff),
        cell_index(0x86318d81fffffff),
        cell_index(0x86318d827ffffff),
    ];
    assert_eq!(result, expected, "RangeToInclusive");
}

#[test]
fn set_range_with_bounds_that_are_not_stored() {
    let set = FrozenSet::try_from_iter(&test_cells()).expect("set");
    let children = cell_index(0x85318d83fffffff)
        .children(Resolution::Six)
        .collect::<Vec<_>>();

    // From a cell that is not in the set up to another: the descendants of
    // the first, and of those in between.
    let result = collect_range(
        set.range((Bound::Included(children[1]), Bound::Excluded(children[3]))),
    );
    let expected = children[1]
        .children(Resolution::Seven)
        .chain(children[2].children(Resolution::Seven))
        .collect::<Vec<_>>();
    assert_eq!(result, expected);

    // A lower bound above the upper one gives nothing.
    let result = collect_range(
        set.range((Bound::Included(children[3]), Bound::Included(children[1]))),
    );
    assert!(result.is_empty());

    // Bounds outside of what is stored.
    let result = collect_range(set.range((
        Bound::Excluded(cell_index(0x85283473fffffff)),
        Bound::Included(cell_index(0x8aa88b946a27fff)),
    )));
    assert_eq!(result, test_cells());
    let result = collect_range(set.range((
        Bound::Included(cell_index(0x8aa88b946a27fff)),
        Bound::Unbounded,
    )));
    assert!(result.is_empty());
}

#[test]
fn set_descendants() {
    let parent = cell_index(0x85318d83fffffff);
    let children = parent.children(Resolution::Six).collect::<Vec<_>>();
    let set = FrozenSet::try_from_iter(&children).expect("set");

    assert_eq!(collect_range(set.descendants(parent)), children);
    // A child has no descendant in the set, and is not its own.
    assert!(collect_range(set.descendants(children[2])).is_empty());
    // Nor has an unrelated cell.
    assert!(
        collect_range(set.descendants(cell_index(0x85283473fffffff)))
            .is_empty()
    );
}

#[test]
fn set_descendants_lie_between_first_and_last_child() {
    let parent = cell_index(0x85318d83fffffff);
    let children = parent.children(Resolution::Six).collect::<Vec<_>>();
    let set = FrozenSet::try_from_iter(&test_cells()).expect("set");

    // What descends from the last child comes behind it, so behind the
    // upper bound.
    let expected = children[..6]
        .iter()
        .flat_map(|child| child.children(Resolution::Seven))
        .collect::<Vec<_>>();
    assert_eq!(expected.len(), 42);
    assert_eq!(collect_range(set.descendants(parent)), expected);
    // Of a child, its own seven children.
    assert_eq!(
        collect_range(set.descendants(children[6])),
        children[6].children(Resolution::Seven).collect::<Vec<_>>()
    );
}

#[test]
fn set_descendants_at_the_finest_resolution() {
    let cell = cell_index(0x8f2a1072b598641);
    let set = FrozenSet::try_from_iter(&[cell]).expect("set");
    assert!(collect_range(set.descendants(cell)).is_empty());
}

#[test]
fn set_descendants_of_a_pentagon() {
    let pentagon = cell_index(0x8009fffffffffff);
    let children = pentagon.children(Resolution::One).collect::<Vec<_>>();
    assert_eq!(children.len(), 6);
    let set = FrozenSet::try_from_iter(&children).expect("set");
    assert_eq!(collect_range(set.descendants(pentagon)), children);
}

#[test]
fn set_from_empty_input() {
    let set = FrozenSet::try_from_iter(&[]).expect("failed to create set");
    assert_eq!(set.len(), 0);
    assert!(set.is_empty());
    let mut cells = set.iter();
    assert_eq!(cells.len(), 0);
    assert_eq!(cells.next(), None);
    assert_eq!(set.contains(cell_index(0x85283473fffffff)), None);
}

#[test]
fn set_iterator_counts_what_is_left() {
    let set = FrozenSet::try_from_iter(&test_cells()).expect("set");
    let mut cells = set.iter();
    assert_eq!(cells.len(), 49);
    assert_eq!(cells.size_hint(), (49, Some(49)));
    assert_eq!(cells.next(), Some(test_cells()[0]));
    assert_eq!(cells.next(), Some(test_cells()[1]));
    assert_eq!(cells.len(), 47);
    assert_eq!(cells.size_hint(), (47, Some(47)));
    let rest = collect(cells);
    assert_eq!(rest, test_cells()[2..].to_vec());
}

#[test]
fn set_iterator_stays_exhausted() {
    let set = FrozenSet::try_from_iter(&[cell_index(0x85283473fffffff)])
        .expect("set");
    let mut cells = set.iter();
    assert_eq!(cells.next(), Some(cell_index(0x85283473fffffff)));
    assert_eq!(cells.next(), None);
    assert_eq!(cells.next(), None);
    assert_eq!(cells.len(), 0);
}

#[test]
fn set_contains_returns_the_coarsest_stored_ancestor() {
    let coarse = cell_index(0x85318d83fffffff);
    let fine = cell_index(0x86318d837ffffff);
    let set = FrozenSet::try_from_iter(&[coarse, fine]).expect("set");
    assert_eq!(set.len(), 2);
    assert_eq!(
        set.contains(cell_index(0x89318d8368bffff)),
        Some(coarse)
    );
    assert_eq!(set.contains(fine), Some(coarse));
    // An ancestor of what is stored is not contained.
    let ancestor = coarse.parent(Resolution::Four).expect("parent");
    assert_eq!(set.contains(ancestor), None);
    // Nor is a sibling.
    assert_eq!(set.contains(cell_index(0x85318d87fffffff)), None);
}

#[test]
fn set_builder_rejects_a_smaller_key_and_everything_after() {
    let mut builder = FrozenSetBuilder::memory();
    builder
        .insert(cell_index(0x85318d83fffffff))
        .expect("failed to insert");
    let err = builder
        .insert(cell_index(0x85283473fffffff))
        .expect_err("inserted out of order");
    assert!(matches!(err, BuildError::OrderViolation(Some(_))));

    // A key that would have followed is refused as well.
    let err = builder
        .insert(cell_index(0x86318d837ffffff))
        .expect_err("inserted after a failure");
    assert!(matches!(err, BuildError::OrderViolation(None)));
    assert!(err.source().is_none());
    assert_eq!(err.message(), "builder has failed");
    let err = builder
        .extend_iter(&[cell_index(0x8aa88b946a27fff)])
        .expect_err("extended after a failure");
    assert!(matches!(err, BuildError::OrderViolation(None)));

    // And the builder gives nothing.
    let err = builder.into_inner().expect_err("finished after a failure");
    assert!(matches!(err, BuildError::OrderViolation(None)));
}

#[test]
fn set_builder_finish_after_a_failure() {
    let mut builder = FrozenSetBuilder::memory();
    builder
        .extend_iter(&[
            cell_index(0x85318d83fffffff),
            cell_index(0x85283473fffffff),
        ])
        .expect_err("out of order");
    assert!(matches!(
        builder.finish(),
        Err(BuildError::OrderViolation(None))
    ));
}

#[test]
fn set_builder_rejects_a_duplicate() {
    let cell = cell_index(0x85318d83fffffff);
    let mut builder = FrozenSetBuilder::memory();
    builder.insert(cell).expect("failed to insert");
    let err = builder.insert(cell).expect_err("inserted twice");
    assert!(matches!(err, BuildError::OrderViolation(Some(_))));

    let err = FrozenSet::try_from_iter(&[cell, cell])
        .err()
        .expect("inserted twice");
    assert!(matches!(err, BuildError::OrderViolation(_)));
}

#[test]
fn set_builder_takes_a_descendant_after_its_ancestor() {
    let mut builder = FrozenSetBuilder::memory();
    builder
        .insert(cell_index(0x85318d83fffffff))
        .expect("failed to insert");
    builder
        .insert(cell_index(0x86318d837ffffff))
        .expect("failed to insert");
    // But not the ancestor after the descendant.
    let mut builder = FrozenSetBuilder::memory();
    builder
        .insert(cell_index(0x86318d837ffffff))
        .expect("failed to insert");
    builder
        .insert(cell_index(0x85318d83fffffff))
        .expect_err("ancestor after descendant");
}

#[test]
fn set_extend_stops_at_the_first_failure() {
    let cells = test_cells();
    let mut input = cells[..5].to_vec();
    input.push(cells[2]);
    input.push(cells[10]);
    let mut builder = FrozenSetBuilder::memory();
    builder.extend_iter(&input).expect_err("out of order");

    // What came before the failure was taken, as a second builder shows
    // that takes the same cells and stops there.
    let mut again = FrozenSetBuilder::memory();
    again.extend_iter(&cells[..5]).expect("in order");
    let set = again.into_set();
    assert_eq!(set.len(), 5);
    assert_eq!(collect(set.iter()), cells[..5].to_vec());
}

#[test]
fn set_try_from_unordered_input() {
    let cells = [
        cell_index(0x85318d83fffffff),
        cell_index(0x85283473fffffff),
    ];
    let err = FrozenSet::try_from_iter(&cells).err().expect("unordered");
    assert!(matches!(err, BuildError::OrderViolation(_)));
}

#[test]
fn set_new_rejects_what_is_no_automaton() {
    let err = FrozenSet::new(Vec::new()).err().expect("empty");
    assert!(matches!(err, BuildError::Format(_)));
    assert!(err.source().is_some());
    assert!(!err.message().is_empty());
    let err = FrozenSet::new(vec![0; 64]).err().expect("zeroes");
    assert!(matches!(err, BuildError::Format(_)));
    let err = FrozenSet::new(vec![0xff; 64]).err().expect("ones");
    assert!(matches!(err, BuildError::Format(_)));
}

#[test]
fn set_builder_writes_behind_the_sink() {
    let sink = vec![1, 2, 3];
    let mut builder = FrozenSetBuilder::new(sink).expect("builder");
    builder.extend_iter(&test_cells()).expect("in order");
    let bytes = builder.into_inner().expect("bytes");
    assert_eq!(bytes[..3], [1, 2, 3]);

    let set = FrozenSet::new(bytes[3..].to_vec()).expect("valid set");
    assert_eq!(set.len(), 49);
    assert_eq!(collect(set.iter()), test_cells());

    let mut builder = FrozenSetBuilder::memory();
    builder.extend_iter(&test_cells()).expect("in order");
    assert_eq!(builder.into_inner().expect("bytes"), bytes[3..].to_vec());
}

#[test]
fn set_bytes_are_those_of_the_builder() {
    let mut builder = FrozenSetBuilder::memory();
    builder.extend_iter(&test_cells()).expect("in order");
    let bytes = builder.into_inner().expect("bytes");
    let set = FrozenSet::try_from_iter(&test_cells()).expect("set");
    assert_eq!(set.as_bytes(), &bytes[..]);
    let mut builder = FrozenSetBuilder::memory();
    builder.extend_iter(&test_cells()).expect("in order");
    assert_eq!(builder.into_set().as_bytes(), &bytes[..]);
}

#[test]
fn set_error_text_is_a_heading_and_the_cause() {
    let mut builder = FrozenSetBuilder::memory();
    builder
        .insert(cell_index(0x85318d83fffffff))
        .expect("failed to insert");
    let err = builder
        .insert(cell_index(0x85283473fffffff))
        .expect_err("inserted out of order");
    let cause = err.source().expect("cause");
    assert_eq!(err.message(), format!("FST error: {cause}"));

    let err = FrozenSet::new(vec![0; 64]).err().expect("zeroes");
    let cause = err.source().expect("cause");
    assert_eq!(err.message(), format!("FST error: {cause}"));
}

#[test]
fn set_of_a_builder_opens_again() {
    let mut builder = FrozenSetBuilder::memory();
    builder.extend_iter(&test_cells()).expect("in order");
    let set = builder.into_set();
    let again = FrozenSet::new(set.as_bytes().to_vec()).expect("valid set");
    assert_eq!(again.len(), set.len());
    assert_eq!(collect(again.iter()), collect(set.iter()));

    let set = FrozenSet::try_from_iter(&test_cells()).expect("set");
    let again = FrozenSet::new(set.as_bytes().to_vec()).expect("valid set");
    assert_eq!(again.as_bytes(), set.as_bytes());
}

#[test]
fn set_new_reads_the_footer_of_old_versions() {
    // Version 2 has no checksum: the footer ends with the bytes.
    let mut bytes = vec![0xffu8; 40];
    bytes[..8].copy_from_slice(&2u64.to_le_bytes());
    assert!(FrozenSet::new(bytes).is_ok());
    // An empty root away from the end is refused by the automaton.
    let mut bytes = vec![0u8; 40];
    bytes[0] = 2;
    let err = FrozenSet::new(bytes).err().expect("root address");
    assert!(matches!(err, BuildError::Format(Some(_))));
    // A version that is not known is left to the automaton.
    let mut bytes = vec![0xffu8; 40];
    bytes[..8].copy_from_slice(&4u64.to_le_bytes());
    let err = FrozenSet::new(bytes).err().expect("version");
    assert!(matches!(err, BuildError::Format(Some(_))));
    // Large numbers in the footer fit where addresses have 64 bits.
    let mut bytes = vec![0xffu8; 40];
    bytes[..8].copy_from_slice(&3u64.to_le_bytes());
    assert!(FrozenSet::new(bytes).is_ok());
}
