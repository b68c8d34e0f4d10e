use fst::{IntoStreamer, Streamer};
use h3o::{CellIndex, Resolution};
use h3o_ice::{FrozenMap, FrozenMapBuilder, FrozenSet, FrozenSetBuilder, Key};

fn cells() -> Vec<CellIndex> {
    let parent = CellIndex::try_from(0x85318d83fffffff).expect("invalid cell");
    let mut cells = vec![
        CellIndex::try_from(0x85283473fffffff).expect("invalid cell"),
        parent,
    ];
    cells.extend(parent.children(Resolution::Seven));
    cells
}

#[test]
fn set_bytes_are_those_of_an_automaton_of_the_keys() {
    let mut builder = fst::SetBuilder::memory();
    for cell in cells() {
        builder
            .insert(Key::from(cell).as_ref())
            .expect("failed to insert");
    }
    let expected = builder.into_inner().expect("bytes");

    let set = FrozenSet::try_from_iter(&cells()).expect("set");
    assert_eq!(set.as_bytes(), &expected[..]);

    let mut builder = FrozenSetBuilder::memory();
    builder.extend_iter(&cells()).expect("in order");
    assert_eq!(builder.into_inner().expect("bytes"), expected);
}

#[test]
fn map_bytes_are_those_of_an_automaton_of_the_keys() {
    let pairs = cells()
        .into_iter()
        .enumerate()
        .map(|(idx, cell)| (cell, 1000 - idx as u64))
        .collect::<Vec<_>>();
    let mut builder = fst::MapBuilder::memory();
    for (cell, value) in &pairs {
        builder
            .insert(Key::from(*cell).as_ref(), *value)
            .expect("failed to insert");
    }
    let expected = builder.into_inner().expect("bytes");

    let map = FrozenMap::try_from_iter(&pairs).expect("map");
    assert_eq!(map.as_bytes(), &expected[..]);

    let mut builder = FrozenMapBuilder::memory();
    builder.extend_iter(&pairs).expect("in order");
    assert_eq!(builder.into_map().as_bytes(), &expected[..]);
}

#[test]
fn an_automaton_reads_what_the_builders_write() {
    let set = FrozenSet::try_from_iter(&cells()).expect("set");
    let automaton = fst::Set::new(set.as_bytes()).expect("automaton");
    assert_eq!(automaton.len(), cells().len());
    let mut stream = automaton.into_stream();
    let mut keys = Vec::new();
    while let Some(key) = stream.next() {
        keys.push(key.to_vec());
    }
    let expected = cells()
        .into_iter()
        .map(|cell| Key::from(cell).as_ref().to_vec())
        .collect::<Vec<_>>();
    assert_eq!(keys, expected);

    let pairs = cells()
        .into_iter()
        .map(|cell| (cell, u64::from(cell)))
        .collect::<Vec<_>>();
    let map = FrozenMap::try_from_iter(&pairs).expect("map");
    let automaton = fst::Map::new(map.as_bytes()).expect("automaton");
    for (cell, value) in pairs {
        assert_eq!(automaton.get(Key::from(cell).as_ref()), Some(value));
    }
}
