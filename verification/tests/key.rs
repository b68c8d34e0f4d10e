use h3o::{CellIndex, Resolution};
use h3o_ice::Key;

fn cell_index(value: u64) -> CellIndex {
    CellIndex::try_from(value).expect("invalid cell")
}

#[test]
fn test_from() {
    let index = CellIndex::try_from(0x8f2a1072b598641).expect("valid cell");
    let key = Key::from(index);
    assert_eq!(Some(index), key.to_cell());
}

#[test]
fn key_bytes_are_base_cell_then_directions() {
    let key = Key::from(cell_index(0x8a1fb46622dffff));
    assert_eq!(key.as_ref(), &[15, 6, 6, 4, 3, 1, 4, 2, 1, 3, 3]);
    assert_eq!(key.len(), 10);

    let key = Key::from(cell_index(0x85283473fffffff));
    assert_eq!(key.as_ref(), &[20, 0, 6, 4, 3, 4]);
    assert_eq!(key.len(), 5);

    let key = Key::from(cell_index(0x8f2a1072b598641));
    assert_eq!(
        key.as_ref(),
        &[21, 0, 2, 0, 3, 4, 5, 3, 2, 6, 3, 0, 3, 1, 0, 1]
    );
    assert_eq!(key.len(), 15);
}

#[test]
fn key_of_base_cell_has_one_byte() {
    let key = Key::from(cell_index(0x8009fffffffffff));
    assert_eq!(key.as_ref(), &[4]);
    assert_eq!(key.len(), 0);
}

#[test]
fn key_from_bytes_pads_and_truncates() {
    let key = Key::from(&[24u8, 6, 1][..]);
    assert_eq!(key.as_ref(), &[24, 6, 1]);
    assert_eq!(key.len(), 2);

    let long = [1u8; 20];
    let key = Key::from(&long[..]);
    assert_eq!(key.as_ref(), &[1u8; 16]);
    assert_eq!(key.len(), 15);
}

#[test]
fn round_trip_at_every_resolution() {
    let finest = cell_index(0x8f2a1072b598641);
    let resolutions = Resolution::range(Resolution::Zero, Resolution::Fifteen);
    let mut count = 0;
    for resolution in resolutions {
        let cell = finest.parent(resolution).expect("parent");
        let key = Key::from(cell);
        assert_eq!(usize::from(key.len()), usize::from(resolution));
        assert_eq!(key.as_ref().len(), usize::from(resolution) + 1);
        assert_eq!(key.to_cell(), Some(cell));
        count += 1;
    }
    assert_eq!(count, 16);
}

#[test]
fn round_trip_of_every_base_cell_and_its_children() {
    for base in CellIndex::base_cells() {
        assert_eq!(Key::from(base).to_cell(), Some(base));
        for child in base.children(Resolution::Two) {
            assert_eq!(Key::from(child).to_cell(), Some(child));
        }
    }
}

#[test]
fn key_of_parent_is_prefix_of_key_of_child() {
    let cell = cell_index(0x8d1fb46622d85bf);
    let parent = cell.parent(Resolution::Ten).expect("parent");
    assert_eq!(parent, cell_index(0x8a1fb46622dffff));
    let key = Key::from(cell);
    let prefix = Key::from(&key.as_ref()[..=10]);
    assert_eq!(prefix.to_cell(), Some(parent));
}

#[test]
fn decoding_rejects_what_is_no_key_of_a_cell() {
    // Base cell out of range.
    assert_eq!(Key::from(&[122u8][..]).to_cell(), None);
    // Nothing but padding.
    assert_eq!(Key::from(&[][..]).to_cell(), None);
    // The unused direction inside the key.
    assert_eq!(Key::from(&[5u8, 7, 1][..]).to_cell(), None);
    // A byte that is no direction.
    assert_eq!(Key::from(&[5u8, 8][..]).to_cell(), None);
    assert_eq!(Key::from(&[5u8, 0, 200][..]).to_cell(), None);
    // Padding in the middle.
    assert_eq!(Key::from(&[5u8, 0xff, 1][..]).to_cell(), None);
    // The deleted subsequence of a pentagon (base cell 4).
    assert_eq!(Key::from(&[4u8, 1][..]).to_cell(), None);
    assert_eq!(Key::from(&[4u8, 0, 0, 1, 3][..]).to_cell(), None);
}

#[test]
fn decoding_accepts_keys_of_cells() {
    // The same directions under a hexagon.
    assert!(Key::from(&[5u8, 1][..]).to_cell().is_some());
    // A pentagon whose first direction off the centre is not 1.
    let cell = Key::from(&[4u8, 0, 2, 1][..]).to_cell().expect("cell");
    assert_eq!(u8::from(cell.base_cell()), 4);
    assert_eq!(cell.resolution(), Resolution::Three);
    assert_eq!(Key::from(cell).as_ref(), &[4, 0, 2, 1]);
    // The last base cell.
    let cell = Key::from(&[121u8][..]).to_cell().expect("cell");
    assert_eq!(u64::from(cell), 0x80f3fffffffffff);
}

#[test]
fn keys_order_as_cells_do() {
    let parent = cell_index(0x85318d83fffffff);
    let children = parent.children(Resolution::Six).collect::<Vec<_>>();
    // A cell comes before its descendants.
    assert!(Key::from(parent).as_ref() < Key::from(children[0]).as_ref());
    // Children come in the order of their direction.
    for pair in children.windows(2) {
        assert!(Key::from(pair[0]).as_ref() < Key::from(pair[1]).as_ref());
    }
    // A descendant of an earlier child comes before a later child.
    let grandchild = children[2]
        .children(Resolution::Seven)
        .last()
        .expect("grandchild");
    assert!(Key::from(grandchild).as_ref() < Key::from(children[3]).as_ref());
    assert!(Key::from(children[2]).as_ref() < Key::from(grandchild).as_ref());
    // Base cells order first.
    let other = cell_index(0x85283473fffffff);
    assert!(Key::from(other).as_ref() < Key::from(parent).as_ref());
}
