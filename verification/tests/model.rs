use h3o::{CellIndex, Resolution};
use h3o_ice::{FrozenMap, FrozenMapRange, FrozenSet, FrozenSetRange, Key};
use std::ops::Bound;

/// A small generator of numbers, the same on every run.
struct Numbers(u64);

impl Numbers {
    fn next(&mut self) -> u64 {
        self.0 = self
            .0
            .wrapping_mul(6364136223846793005)
            .wrapping_add(1442695040888963407);
        self.0 >> 33
    }

    fn below(&mut self, bound: usize) -> usize {
        (self.next() % bound as u64) as usize
    }
}

fn key(cell: CellIndex) -> Vec<u8> {
    Key::from(cell).as_ref().to_vec()
}

/// A cell under one of a few base cells, at a resolution up to five.
fn some_cell(numbers: &mut Numbers) -> CellIndex {
    let bases = [0x8009fffffffffff_u64, 0x8029fffffffffff, 0x80f3fffffffffff];
    let mut cell = CellIndex::try_from(bases[numbers.below(bases.len())])
        .expect("base cell");
    let depth = numbers.below(6);
    for _ in 0..depth {
        let resolution = cell.resolution().succ().expect("finer");
        let children = cell.children(resolution).collect::<Vec<_>>();
        // Stay near the first children, so that cells meet.
        cell = children[numbers.below(3).min(children.len() - 1)];
    }
    cell
}

fn some_cells(numbers: &mut Numbers, count: usize) -> Vec<CellIndex> {
    let mut cells = (0..count).map(|_| some_cell(numbers)).collect::<Vec<_>>();
    cells.sort_by_key(|cell| key(*cell));
    cells.dedup();
    cells
}

fn drain_set(mut cells: FrozenSetRange<'_>) -> Vec<CellIndex> {
    let mut all = Vec::new();
    while let Some(cell) = cells.next() {
        all.push(cell);
    }
    all
}

fn drain_map(mut pairs: FrozenMapRange<'_>) -> Vec<(CellIndex, u64)> {
    let mut all = Vec::new();
    while let Some(pair) = pairs.next() {
        all.push(pair);
    }
    all
}

fn shortest_stored(stored: &[CellIndex], query: CellIndex) -> Option<usize> {
    let query = key(query);
    (1..=query.len()).find_map(|n| {
        stored.iter().position(|cell| key(*cell) == query[..n])
    })
}

fn some_bound(numbers: &mut Numbers) -> Bound<CellIndex> {
    match numbers.below(3) {
        0 => Bound::Included(some_cell(numbers)),
        1 => Bound::Excluded(some_cell(numbers)),
        _ => Bound::Unbounded,
    }
}

fn in_bounds(
    cell: CellIndex,
    start: &Bound<CellIndex>,
    end: &Bound<CellIndex>,
) -> bool {
    let above = match start {
        Bound::Included(low) => key(*low) <= key(cell),
        Bound::Excluded(low) => key(*low) < key(cell),
        Bound::Unbounded => true,
    };
    let below = match end {
        Bound::Included(high) => key(cell) <= key(*high),
        Bound::Excluded(high) => key(cell) < key(*high),
        Bound::Unbounded => true,
    };
    above && below
}

#[test]
fn lookups_find_the_shortest_stored_prefix() {
    let mut numbers = Numbers(7);
    for round in 0..40 {
        let cells = some_cells(&mut numbers, 1 + round);
        let pairs = cells
            .iter()
            .map(|cell| (*cell, numbers.next()))
            .collect::<Vec<_>>();
        let set = FrozenSet::try_from_iter(&cells).expect("set");
        let map = FrozenMap::try_from_iter(&pairs).expect("map");
        assert_eq!(set.len(), cells.len());
        assert_eq!(map.len(), cells.len());
        for _ in 0..200 {
            let query = some_cell(&mut numbers);
            let expected = shortest_stored(&cells, query);
            assert_eq!(set.contains(query), expected.map(|at| cells[at]));
            assert_eq!(map.contains_key(query), expected.map(|at| cells[at]));
            assert_eq!(map.get(query), expected.map(|at| pairs[at]));
        }
    }
}

#[test]
fn ranges_hold_what_lies_within_the_bounds() {
    let mut numbers = Numbers(11);
    for round in 0..40 {
        let cells = some_cells(&mut numbers, 1 + 2 * round);
        let pairs = cells
            .iter()
            .map(|cell| (*cell, numbers.next()))
            .collect::<Vec<_>>();
        let set = FrozenSet::try_from_iter(&cells).expect("set");
        let map = FrozenMap::try_from_iter(&pairs).expect("map");
        for _ in 0..50 {
            let start = some_bound(&mut numbers);
            let end = some_bound(&mut numbers);
            let expected = pairs
                .iter()
                .copied()
                .filter(|(cell, _)| in_bounds(*cell, &start, &end))
                .collect::<Vec<_>>();
            assert_eq!(drain_map(map.range((start, end))), expected);
            assert_eq!(
                drain_set(set.range((start, end))),
                expected.iter().map(|(cell, _)| *cell).collect::<Vec<_>>()
            );
        }
    }
}

#[test]
fn descendants_hold_what_lies_between_the_children() {
    let mut numbers = Numbers(13);
    for round in 0..40 {
        let cells = some_cells(&mut numbers, 1 + 2 * round);
        let set = FrozenSet::try_from_iter(&cells).expect("set");
        for _ in 0..50 {
            let parent = some_cell(&mut numbers);
            let mut low = key(parent);
            let mut high = low.clone();
            low.push(0);
            high.push(6);
            let expected = cells
                .iter()
                .copied()
                .filter(|cell| low <= key(*cell) && key(*cell) <= high)
                .collect::<Vec<_>>();
            assert_eq!(drain_set(set.descendants(parent)), expected);
            // Each is a descendant, and no child is missing.
            for cell in &expected {
                assert!(key(*cell).starts_with(&key(parent)));
                assert!(key(*cell).len() > key(parent).len());
            }
            let resolution = parent.resolution().succ().expect("finer");
            for child in parent.children(resolution) {
                assert_eq!(expected.contains(&child), cells.contains(&child));
            }
        }
    }
}

#[test]
fn unordered_input_is_refused() {
    let mut numbers = Numbers(17);
    for _ in 0..200 {
        let count = 1 + numbers.below(6);
        let cells = (0..count)
            .map(|_| some_cell(&mut numbers))
            .collect::<Vec<_>>();
        let ordered = cells.windows(2).all(|pair| key(pair[0]) < key(pair[1]));
        assert_eq!(FrozenSet::try_from_iter(&cells).is_ok(), ordered);
        let pairs = cells.iter().map(|cell| (*cell, 1)).collect::<Vec<_>>();
        assert_eq!(FrozenMap::try_from_iter(&pairs).is_ok(), ordered);
    }
}

#[test]
fn keys_order_as_the_cells_under_one_base_cell() {
    let base = CellIndex::try_from(0x8029fffffffffff).expect("base cell");
    let cells = base.children(Resolution::Three).collect::<Vec<_>>();
    assert_eq!(cells.len(), 343);
    // The children come in ascending order of their directions, and so do
    // their keys.
    assert!(cells.windows(2).all(|pair| key(pair[0]) < key(pair[1])));
    let set = FrozenSet::try_from_iter(&cells).expect("set");
    assert_eq!(set.len(), 343);
    // Under the base cell, everything that does not descend from its last
    // child.
    let expected = cells
        .iter()
        .copied()
        .filter(|cell| key(*cell)[1] < 6)
        .collect::<Vec<_>>();
    assert_eq!(expected.len(), 294);
    assert_eq!(drain_set(set.descendants(base)), expected);
    let parent = base.children(Resolution::Two).next().expect("child");
    assert_eq!(
        drain_set(set.descendants(parent)),
        parent.children(Resolution::Three).collect::<Vec<_>>()
    );
}
