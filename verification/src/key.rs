//! The key under which a cell is stored: its base cell, then one byte per
//! direction, so that byte order follows the cell hierarchy.

use crate::cell::{
    cell_base, cell_direction_at, cell_from_raw, cell_raw, cell_resolution, cell_to_raw,
    direction_offset, is_child, is_pentagon_base, raw_base_cell, raw_direction, raw_mode,
    raw_resolution, raw_valid, MAX_BASE_CELL, MAX_RESOLUTION, UNUSED_DIRECTION,
};
use crate::order::{lemma_lex_first, lemma_lex_total, lex_lt};
use h3o::CellIndex;
use vstd::prelude::*;
use vstd::slice::slice_subrange;

verus! {

/// Max key size, in bytes (base cell + 15 directions).
pub const SIZE: usize = 16;

/// The byte that fills the buffer behind the significant bytes. No base
/// cell and no direction has this value.
pub const PADDING: u8 = 0xff;

/// `buf` without its trailing padding bytes.
pub open spec fn trim(buf: Seq<u8>) -> Seq<u8>
    decreases buf.len(),
{
    if buf.len() > 0 && buf.last() == PADDING {
        trim(buf.drop_last())
    } else {
        buf
    }
}

/// `k` followed by padding, up to the size of the buffer.
pub open spec fn padded(k: Seq<u8>) -> Seq<u8> {
    Seq::new(
        SIZE as nat,
        |i: int|
            if i < k.len() {
                k[i]
            } else {
                PADDING
            },
    )
}

/// The key of the cell with the given bits: its base cell, then its
/// direction at each resolution from 1 to its own.
pub open spec fn cell_key(bits: u64) -> Seq<u8> {
    Seq::new(
        (raw_resolution(bits) + 1) as nat,
        |i: int|
            if i == 0 {
                raw_base_cell(bits)
            } else {
                raw_direction(bits, i as u8)
            },
    )
}

/// Whether `k` is the key of a cell: a base cell in range, up to fifteen
/// directions below 7, and under a pentagon no deleted subsequence.
pub open spec fn key_valid(k: Seq<u8>) -> bool {
    &&& 1 <= k.len() <= SIZE
    &&& k[0] <= MAX_BASE_CELL
    &&& forall|i: int| 1 <= i < k.len() ==> k[i] < UNUSED_DIRECTION
    &&& is_pentagon_base(k[0]) ==> forall|i: int|
        1 <= i < k.len() && k[i] == 1 ==> exists|j: int| 1 <= j < i && k[j] != 0
}

/// A decomposed version of an H3 cell index.
#[derive(Clone, Copy)]
pub struct Key([u8; 16]);

impl View for Key {
    type V = Seq<u8>;

    /// The significant bytes: the buffer without its trailing padding.
    closed spec fn view(&self) -> Seq<u8> {
        trim(self.0@)
    }
}

impl Key {
    /// The whole buffer, padding included.
    pub closed spec fn buffer(self) -> Seq<u8> {
        self.0@
    }

    /// A key has at least one significant byte.
    pub open spec fn wf(self) -> bool {
        self@.len() > 0
    }

    /// The view is the buffer cut behind its last byte that is not padding.
    pub proof fn lemma_view(self)
        ensures
            self.buffer().len() == SIZE,
            self@ == trim(self.buffer()),
            self@.len() <= SIZE,
            self@ == self.buffer().take(self@.len() as int),
            self@.len() > 0 ==> self@.last() != PADDING,
            forall|i: int| self@.len() <= i < SIZE ==> self.buffer()[i] == PADDING,
    {
        lemma_trim(self.0@);
    }

    /// Index of the last significant byte: the resolution of the cell.
    pub fn len(self) -> (n: u8)
        requires
            self.wf(),
        ensures
            n as int == self@.len() - 1,
            n <= 15,
            self.buffer()[n as int] != PADDING,
            forall|i: int| n < i < SIZE ==> self.buffer()[i] == PADDING,
    {
        proof {
            lemma_trim(self.0@);
            assert(self.0@.take(16) == self.0@);
        }
        let mut n: usize = 15;
        while n > 0 && self.0[n] == PADDING
            invariant
                n <= 15,
                self@.len() > 0,
                self@ == trim(self.0@),
                trim(self.0@) == trim(self.0@.take(n + 1)),
            decreases n,
        {
            proof {
                let cur = self.0@.take(n + 1);
                assert(cur.last() == PADDING);
                assert(cur.drop_last() == self.0@.take(n as int));
            }
            n -= 1;
        }
        proof {
            let cur = self.0@.take(n + 1);
            lemma_trim(cur);
            if cur.last() == PADDING {
                assert(n == 0);
                assert(cur.drop_last().len() == 0);
                assert(trim(cur.drop_last()).len() == 0);
            }
            assert(trim(cur) == cur);
        }
        n as u8
    }

    /// The cell that this key stands for, if it is the key of a cell.
    pub fn to_cell(self) -> (cell: Option<CellIndex>)
        ensures
            cell is Some <==> key_valid(self@),
            cell is Some ==> cell_key(cell_raw(cell.unwrap())) == self@,
            cell is Some ==> key_cell(self@) == Some(cell_raw(cell.unwrap())),
            cell is Some ==> raw_valid(cell_raw(cell.unwrap())),
    {
        proof {
            self.lemma_view();
        }
        if self.0[0] > MAX_BASE_CELL {
            proof {
                if self@.len() > 0 {
                    assert(self@[0] == self.0@[0]);
                }
            }
            return None;
        }
        assert(self@.len() > 0) by {
            if self@.len() == 0 {
                assert(self.0@[0] == PADDING);
            }
        }
        let res = self.len();
        let key = self.0;
        // Default cell index (resolution 0, base cell 0).
        let mut index: u64 = 0x8001fffffffffff;
        // Resolution bit offset: 52.
        index |= (res as u64) << 52;
        // Base cell bit offset: 45
        index |= (key[0] as u64) << 45;
        proof {
            lemma_header(res, key[0]);
            assert(self@[0] == key@[0]);
        }
        let mut i: u8 = 1;
        while i <= res
            invariant
                1 <= i <= res + 1,
                res <= MAX_RESOLUTION,
                key == self.0,
                self@ == key@.take(res + 1),
                assembled(index, self@, i - 1),
                forall|j: int| 1 <= j < i ==> self@[j] < UNUSED_DIRECTION,
            decreases res + 1 - i,
        {
            let direction = key[i as usize];
            assert(self@[i as int] == direction);
            if direction >= UNUSED_DIRECTION {
                return None;
            }
            // Max res: 15, direction bit width: 3
            let offset: u64 = ((15 - i) * 3) as u64;
            let ghost before = index;
            index = (index & !(0b111u64 << offset)) | ((direction as u64) << offset);
            proof {
                lemma_set_direction(before, i, direction);
            }
            i += 1;
        }
        proof {
            lemma_assembled(index, self@);
        }
        let cell = cell_from_raw(index);
        proof {
            if cell is Some {
                let found = choose|found: u64| raw_valid(found) && cell_key(found) == self@;
                lemma_key_injective(found, index);
            }
        }
        cell
    }

    /// The significant bytes.
    pub fn as_ref(&self) -> (bytes: &[u8])
        requires
            self.wf(),
        ensures
            bytes@ == self@,
    {
        let n = self.len();
        proof {
            self.lemma_view();
        }
        slice_subrange(self.0.as_slice(), 0, n as usize + 1)
    }
}

/// The first sixteen bytes of `bytes`, or all of them where there are fewer.
pub open spec fn head(bytes: Seq<u8>) -> Seq<u8> {
    if bytes.len() <= SIZE {
        bytes
    } else {
        bytes.take(SIZE as int)
    }
}

/// The key whose buffer is `buf`.
pub closed spec fn key_with_buffer(buf: Seq<u8>) -> Key {
    choose|key: Key| key.buffer() == buf
}

impl vstd::std_specs::convert::FromSpecImpl<&[u8]> for Key {
    open spec fn obeys_from_spec() -> bool {
        true
    }

    /// The first sixteen bytes, or all of them and padding behind.
    open spec fn from_spec(value: &[u8]) -> Key {
        key_with_buffer(padded(head(value@)))
    }
}

impl From<&[u8]> for Key {
    /// The key that holds the first sixteen bytes of `value`, or all of
    /// them and padding behind.
    fn from(value: &[u8]) -> (key: Key)
        ensures
            key.buffer() == padded(head(value@)),
            key@ == trim(padded(head(value@))),
    {
        let mut key = [PADDING;16];
        let len = if value.len() < SIZE {
            value.len()
        } else {
            SIZE
        };
        let mut i: usize = 0;
        while i < len
            invariant
                i <= len <= SIZE,
                len <= value@.len(),
                forall|j: int| 0 <= j < i ==> key@[j] == value@[j],
                forall|j: int| i <= j < SIZE ==> key@[j] == PADDING,
            decreases len - i,
        {
            key[i] = value[i];
            i += 1;
        }
        let key = Key(key);
        proof {
            let buf = padded(head(value@));
            assert(key.buffer() =~= buf);
            let other = key_with_buffer(buf);
            assert(other.buffer() == buf);
            assert(key.0 =~= other.0);
        }
        key
    }
}

impl vstd::std_specs::convert::FromSpecImpl<CellIndex> for Key {
    open spec fn obeys_from_spec() -> bool {
        true
    }

    /// The key of the cell, and padding behind.
    open spec fn from_spec(value: CellIndex) -> Key {
        key_with_buffer(padded(cell_key(cell_raw(value))))
    }
}

impl From<CellIndex> for Key {
    /// The key of a cell: its base cell, then its direction at each
    /// resolution from 1 to its own.
    fn from(value: CellIndex) -> (key: Key)
        ensures
            key.buffer() == padded(cell_key(cell_raw(value))),
            key@ == cell_key(cell_raw(value)),
            key_valid(key@),
            raw_valid(cell_raw(value)),
    {
        // Every cell index holds the bits of a valid cell.
        let bits = cell_to_raw(value);
        let mut key = [PADDING;16];
        key[0] = cell_base(value);
        let res = cell_resolution(value);
        proof {
            lemma_field_bounds(bits);
        }
        let mut r: u8 = 1;
        while r <= res
            invariant
                1 <= r <= res + 1,
                res == raw_resolution(bits),
                res <= MAX_RESOLUTION,
                bits == cell_raw(value),
                key@[0] == raw_base_cell(bits),
                forall|j: int| 1 <= j < r ==> key@[j] == raw_direction(bits, j as u8),
                forall|j: int| r <= j < SIZE ==> key@[j] == PADDING,
            decreases res + 1 - r,
        {
            match cell_direction_at(value, r) {
                Some(direction) => {
                    key[r as usize] = direction;
                },
                None => {},
            }
            r += 1;
        }
        let key = Key(key);
        proof {
            let buf = padded(cell_key(bits));
            assert(key.buffer() =~= buf);
            let other = key_with_buffer(buf);
            assert(other.buffer() == buf);
            assert(key.0 =~= other.0);
            lemma_cell_key(bits);
            lemma_trim_padded(cell_key(bits));
        }
        key
    }
}

/// Trimming takes the padding off again, whenever `k` fits the buffer and
/// does not itself end in padding.
pub proof fn lemma_trim_padded(k: Seq<u8>)
    requires
        k.len() <= SIZE,
        k.len() > 0 ==> k.last() != PADDING,
    ensures
        trim(padded(k)) == k,
{
    lemma_trim_tail(padded(k), k.len() as int);
    assert(padded(k).take(k.len() as int) == k);
    assert(trim(k) == k);
}

/// Trimming a buffer whose bytes from `n` on are all padding is trimming its
/// first `n` bytes.
proof fn lemma_trim_tail(buf: Seq<u8>, n: int)
    requires
        0 <= n <= buf.len(),
        forall|i: int| n <= i < buf.len() ==> buf[i] == PADDING,
    ensures
        trim(buf) == trim(buf.take(n)),
    decreases buf.len() - n,
{
    if n == buf.len() {
        assert(buf.take(n) == buf);
    } else {
        let rest = buf.drop_last();
        assert(buf.last() == PADDING);
        lemma_trim_tail(rest, n);
        assert(rest.take(n) == buf.take(n));
    }
}

/// The fields of any 64 bits are in the range that their width gives.
pub proof fn lemma_field_bounds(bits: u64)
    ensures
        raw_resolution(bits) <= MAX_RESOLUTION,
        raw_base_cell(bits) <= 127,
        forall|r: u8| 1 <= r <= 15 ==> #[trigger] raw_direction(bits, r) <= UNUSED_DIRECTION,
{
    assert(((bits & (0b1111u64 << 52)) >> 52) <= 15) by (bit_vector);
    assert(((bits & (0b111_1111u64 << 45)) >> 45) <= 127) by (bit_vector);
    assert forall|r: u8| 1 <= r <= 15 implies #[trigger] raw_direction(bits, r) <= 7 by {
        let off = direction_offset(r);
        assert(((bits & (0b111u64 << off)) >> off) <= 7) by (bit_vector)
            requires
                off <= 42,
        ;
    }
}

/// The key of a valid cell is a valid key.
pub proof fn lemma_cell_key(bits: u64)
    requires
        raw_valid(bits),
    ensures
        key_valid(cell_key(bits)),
        cell_key(bits).len() == raw_resolution(bits) + 1,
{
    lemma_field_bounds(bits);
    let k = cell_key(bits);
    let res = raw_resolution(bits);
    assert forall|i: int| 1 <= i < k.len() implies k[i] < UNUSED_DIRECTION by {
        assert(raw_direction(bits, i as u8) != UNUSED_DIRECTION);
    }
    if is_pentagon_base(k[0]) {
        assert forall|i: int| 1 <= i < k.len() && k[i] == 1 implies exists|j: int|
            1 <= j < i && k[j] != 0 by {
            assert(raw_direction(bits, i as u8) == 1);
            let q = choose|q: u8| 1 <= q < (i as u8) && #[trigger] raw_direction(bits, q) != 0;
            assert(k[q as int] != 0);
        }
    }
}

/// Whether `bits` hold the header of a cell with key `k`, the first `n`
/// directions of `k`, and the unused direction at every finer resolution.
pub open spec fn assembled(bits: u64, k: Seq<u8>, n: int) -> bool {
    &&& (bits >> 56) & 0b1000_0111 == 0
    &&& raw_mode(bits) == 1
    &&& raw_resolution(bits) == k.len() - 1
    &&& raw_base_cell(bits) == k[0]
    &&& forall|r: u8|
        1 <= r <= 15 ==> #[trigger] raw_direction(bits, r) == if r <= n {
            k[r as int]
        } else {
            UNUSED_DIRECTION
        }
}

/// The bits of a cell of resolution `res` under `base`, before any direction
/// is set.
proof fn lemma_header(res: u8, base: u8)
    requires
        res <= MAX_RESOLUTION,
        base <= 127,
    ensures
        forall|k: Seq<u8>|
            k.len() == res + 1 && k[0] == base ==> #[trigger] assembled(
                (0x8001fffffffffffu64 | ((res as u64) << 52)) | ((base as u64) << 45),
                k,
                0,
            ),
{
    let bits = (0x8001fffffffffffu64 | ((res as u64) << 52)) | ((base as u64) << 45);
    assert((bits >> 56) & 0b1000_0111 == 0 && ((bits & (0b1111u64 << 59)) >> 59) == 1 && ((bits & (
    0b1111u64 << 52)) >> 52) == res && ((bits & (0b111_1111u64 << 45)) >> 45) == base)
        by (bit_vector)
        requires
            bits == (0x8001fffffffffffu64 | ((res as u64) << 52)) | ((base as u64) << 45),
            res <= 15,
            base <= 127,
    ;
    assert forall|r: u8| 1 <= r <= 15 implies #[trigger] raw_direction(bits, r) == 7 by {
        let off = direction_offset(r);
        assert(((bits & (0b111u64 << off)) >> off) == 7) by (bit_vector)
            requires
                bits == (0x8001fffffffffffu64 | ((res as u64) << 52)) | ((base as u64) << 45),
                res <= 15,
                base <= 127,
                off <= 42,
        ;
    }
}

/// Setting the direction at resolution `at` changes that direction and
/// nothing else.
proof fn lemma_set_direction(bits: u64, at: u8, direction: u8)
    requires
        1 <= at <= 15,
        direction <= UNUSED_DIRECTION,
    ensures
        forall|k: Seq<u8>|
            #![trigger assembled(bits, k, at - 1)]
            assembled(bits, k, at - 1) && at < k.len() && k[at as int] == direction ==> assembled(
                (bits & !(0b111u64 << direction_offset(at))) | ((direction as u64)
                    << direction_offset(at)),
                k,
                at as int,
            ),
{
    let off = direction_offset(at);
    let after = (bits & !(0b111u64 << off)) | ((direction as u64) << off);
    assert((after >> 56) & 0b1000_0111 == (bits >> 56) & 0b1000_0111 && ((after & (0b1111u64
        << 59)) >> 59) == ((bits & (0b1111u64 << 59)) >> 59) && ((after & (0b1111u64 << 52))
        >> 52) == ((bits & (0b1111u64 << 52)) >> 52) && ((after & (0b111_1111u64 << 45)) >> 45)
        == ((bits & (0b111_1111u64 << 45)) >> 45) && ((after & (0b111u64 << off)) >> off)
        == direction) by (bit_vector)
        requires
            after == (bits & !(0b111u64 << off)) | ((direction as u64) << off),
            off <= 42,
            direction <= 7,
    ;
    assert forall|r: u8| 1 <= r <= 15 && r != at implies #[trigger] raw_direction(after, r)
        == raw_direction(bits, r) by {
        let other = direction_offset(r);
        assert(((after & (0b111u64 << other)) >> other) == ((bits & (0b111u64 << other))
            >> other)) by (bit_vector)
            requires
                after == (bits & !(0b111u64 << off)) | ((direction as u64) << off),
                off <= 42,
                other <= 42,
                other + 3 <= off || off + 3 <= other,
                direction <= 7,
        ;
    }
    assert forall|k: Seq<u8>|
        #![trigger assembled(bits, k, at - 1)]
        assembled(bits, k, at - 1) && at < k.len() && k[at as int] == direction implies assembled(
        after,
        k,
        at as int,
    ) by {
        assert forall|r: u8| 1 <= r <= 15 implies #[trigger] raw_direction(after, r) == if r
            <= at {
            k[r as int]
        } else {
            UNUSED_DIRECTION
        } by {
            if r != at {
                assert(raw_direction(after, r) == raw_direction(bits, r));
            }
        }
    }
}

/// Bits that hold all of a key are the bits of a cell exactly when the key
/// is valid, and then the key is theirs.
proof fn lemma_assembled(bits: u64, k: Seq<u8>)
    requires
        1 <= k.len() <= SIZE,
        assembled(bits, k, k.len() - 1),
        k[0] <= MAX_BASE_CELL,
        forall|j: int| 1 <= j < k.len() ==> k[j] < UNUSED_DIRECTION,
    ensures
        raw_valid(bits) <==> key_valid(k),
        cell_key(bits) == k,
{
    assert(cell_key(bits) =~= k);
    let res = raw_resolution(bits);
    if is_pentagon_base(k[0]) {
        if key_valid(k) {
            assert forall|r: u8|
                1 <= r <= res && #[trigger] raw_direction(bits, r) == 1 implies exists|q: u8|
                1 <= q < r && #[trigger] raw_direction(bits, q) != 0 by {
                assert(k[r as int] == 1);
                let j = choose|j: int| 1 <= j < r && k[j] != 0;
                assert(raw_direction(bits, j as u8) != 0);
            }
        }
        if raw_valid(bits) {
            assert forall|i: int| 1 <= i < k.len() && k[i] == 1 implies exists|j: int|
                1 <= j < i && k[j] != 0 by {
                assert(raw_direction(bits, i as u8) == 1);
                let q = choose|q: u8| 1 <= q < (i as u8) && #[trigger] raw_direction(bits, q) != 0;
                assert(k[q as int] != 0);
            }
        }
    }
}

/// The bits that a key stands for: those of the cell whose key it is.
pub open spec fn key_cell(k: Seq<u8>) -> Option<u64> {
    if key_valid(k) {
        Some(choose|bits: u64| raw_valid(bits) && cell_key(bits) == k)
    } else {
        None
    }
}

/// Two cells with the same key are the same cell: a key holds every field
/// of a valid cell.
pub proof fn lemma_key_injective(a: u64, b: u64)
    requires
        raw_valid(a),
        raw_valid(b),
        cell_key(a) == cell_key(b),
    ensures
        a == b,
{
    lemma_field_bounds(a);
    lemma_field_bounds(b);
    let res = raw_resolution(a);
    assert(cell_key(a).len() == raw_resolution(a) + 1);
    assert(cell_key(b).len() == raw_resolution(b) + 1);
    assert(raw_resolution(b) == res);
    assert(cell_key(a)[0] == raw_base_cell(a));
    assert(cell_key(b)[0] == raw_base_cell(b));
    assert forall|r: u8| 1 <= r <= 15 implies #[trigger] raw_direction(a, r) == raw_direction(
        b,
        r,
    ) by {
        if r <= res {
            assert(cell_key(a)[r as int] == raw_direction(a, r));
            assert(cell_key(b)[r as int] == raw_direction(b, r));
        } else {
            assert(raw_direction(a, r) == UNUSED_DIRECTION);
            assert(raw_direction(b, r) == UNUSED_DIRECTION);
        }
    }
    lemma_same_direction(a, b, 1);
    lemma_same_direction(a, b, 2);
    lemma_same_direction(a, b, 3);
    lemma_same_direction(a, b, 4);
    lemma_same_direction(a, b, 5);
    lemma_same_direction(a, b, 6);
    lemma_same_direction(a, b, 7);
    lemma_same_direction(a, b, 8);
    lemma_same_direction(a, b, 9);
    lemma_same_direction(a, b, 10);
    lemma_same_direction(a, b, 11);
    lemma_same_direction(a, b, 12);
    lemma_same_direction(a, b, 13);
    lemma_same_direction(a, b, 14);
    lemma_same_direction(a, b, 15);
    assert(((a & (0b1111u64 << 59)) >> 59) == ((b & (0b1111u64 << 59)) >> 59)) by (bit_vector)
        requires
            ((a & (0b1111u64 << 59)) >> 59) as u8 == ((b & (0b1111u64 << 59)) >> 59) as u8,
    ;
    assert(((a & (0b1111u64 << 52)) >> 52) == ((b & (0b1111u64 << 52)) >> 52)) by (bit_vector)
        requires
            ((a & (0b1111u64 << 52)) >> 52) as u8 == ((b & (0b1111u64 << 52)) >> 52) as u8,
    ;
    assert(((a & (0b111_1111u64 << 45)) >> 45) == ((b & (0b111_1111u64 << 45)) >> 45))
        by (bit_vector)
        requires
            ((a & (0b111_1111u64 << 45)) >> 45) as u8 == ((b & (0b111_1111u64 << 45)) >> 45) as u8,
    ;
    assert(a == b) by (bit_vector)
        requires
            (a >> 56) & 0b1000_0111 == 0,
            (b >> 56) & 0b1000_0111 == 0,
            ((a & (0b1111u64 << 59)) >> 59) == ((b & (0b1111u64 << 59)) >> 59),
            ((a & (0b1111u64 << 52)) >> 52) == ((b & (0b1111u64 << 52)) >> 52),
            ((a & (0b111_1111u64 << 45)) >> 45) == ((b & (0b111_1111u64 << 45)) >> 45),
            ((a & (0b111u64 << 0u64)) >> 0u64) == ((b & (0b111u64 << 0u64)) >> 0u64),
            ((a & (0b111u64 << 3u64)) >> 3u64) == ((b & (0b111u64 << 3u64)) >> 3u64),
            ((a & (0b111u64 << 6u64)) >> 6u64) == ((b & (0b111u64 << 6u64)) >> 6u64),
            ((a & (0b111u64 << 9u64)) >> 9u64) == ((b & (0b111u64 << 9u64)) >> 9u64),
            ((a & (0b111u64 << 12u64)) >> 12u64) == ((b & (0b111u64 << 12u64)) >> 12u64),
            ((a & (0b111u64 << 15u64)) >> 15u64) == ((b & (0b111u64 << 15u64)) >> 15u64),
            ((a & (0b111u64 << 18u64)) >> 18u64) == ((b & (0b111u64 << 18u64)) >> 18u64),
            ((a & (0b111u64 << 21u64)) >> 21u64) == ((b & (0b111u64 << 21u64)) >> 21u64),
            ((a & (0b111u64 << 24u64)) >> 24u64) == ((b & (0b111u64 << 24u64)) >> 24u64),
            ((a & (0b111u64 << 27u64)) >> 27u64) == ((b & (0b111u64 << 27u64)) >> 27u64),
            ((a & (0b111u64 << 30u64)) >> 30u64) == ((b & (0b111u64 << 30u64)) >> 30u64),
            ((a & (0b111u64 << 33u64)) >> 33u64) == ((b & (0b111u64 << 33u64)) >> 33u64),
            ((a & (0b111u64 << 36u64)) >> 36u64) == ((b & (0b111u64 << 36u64)) >> 36u64),
            ((a & (0b111u64 << 39u64)) >> 39u64) == ((b & (0b111u64 << 39u64)) >> 39u64),
            ((a & (0b111u64 << 42u64)) >> 42u64) == ((b & (0b111u64 << 42u64)) >> 42u64),
    ;
}

/// Two bit patterns with the same direction at a resolution have the same
/// three bits there.
proof fn lemma_same_direction(a: u64, b: u64, r: u8)
    requires
        1 <= r <= 15,
        raw_direction(a, r) == raw_direction(b, r),
    ensures
        ((a & (0b111u64 << direction_offset(r))) >> direction_offset(r)) == ((b & (0b111u64
            << direction_offset(r))) >> direction_offset(r)),
{
    let off = direction_offset(r);
    assert(((a & (0b111u64 << off)) >> off) == ((b & (0b111u64 << off)) >> off)) by (bit_vector)
        requires
            off <= 42,
            ((a & (0b111u64 << off)) >> off) as u8 == ((b & (0b111u64 << off)) >> off) as u8,
    ;
}

/// Decoding gives back what was encoded: the key of a valid cell stands for
/// that cell and no other.
pub proof fn lemma_round_trip(bits: u64)
    requires
        raw_valid(bits),
    ensures
        key_cell(cell_key(bits)) == Some(bits),
{
    lemma_cell_key(bits);
    let found = choose|found: u64| raw_valid(found) && cell_key(found) == cell_key(bits);
    lemma_key_injective(found, bits);
}

/// The directions of a cell, from resolution 1 to its own.
pub open spec fn cell_directions(bits: u64) -> Seq<u8> {
    Seq::new(raw_resolution(bits) as nat, |i: int| raw_direction(bits, (i + 1) as u8))
}

/// Keys are ordered as the cells are: by base cell first, under one base
/// cell by their directions from the coarsest resolution on, a cell before
/// its descendants. Of two different cells one key comes before the other.
pub proof fn lemma_order_isomorphism(a: u64, b: u64)
    requires
        raw_valid(a),
        raw_valid(b),
    ensures
        lex_lt(cell_key(a), cell_key(b)) <==> raw_base_cell(a) < raw_base_cell(b) || (
        raw_base_cell(a) == raw_base_cell(b) && lex_lt(cell_directions(a), cell_directions(b))),
        a != b ==> (lex_lt(cell_key(a), cell_key(b)) <==> !lex_lt(cell_key(b), cell_key(a))),
{
    lemma_field_bounds(a);
    lemma_field_bounds(b);
    assert(cell_key(a) =~= seq![raw_base_cell(a)] + cell_directions(a));
    assert(cell_key(b) =~= seq![raw_base_cell(b)] + cell_directions(b));
    lemma_lex_first(raw_base_cell(a), cell_directions(a), raw_base_cell(b), cell_directions(b));
    lemma_lex_total(cell_key(a), cell_key(b));
    if cell_key(a) == cell_key(b) {
        lemma_key_injective(a, b);
    }
}

/// A prefix of a valid key is a valid key: the key of an ancestor.
pub proof fn lemma_prefix_valid(k: Seq<u8>, n: int)
    requires
        key_valid(k),
        1 <= n <= k.len(),
    ensures
        key_valid(k.take(n)),
{
    let p = k.take(n);
    if is_pentagon_base(p[0]) {
        assert forall|i: int| 1 <= i < p.len() && p[i] == 1 implies exists|j: int|
            1 <= j < i && p[j] != 0 by {
            assert(k[i] == 1);
            let j = choose|j: int| 1 <= j < i && k[j] != 0;
            assert(p[j] != 0);
        }
    }
}

/// The key of a child is the key of its parent and the child's direction.
pub proof fn lemma_child_key(child: u64, parent: u64, direction: u8)
    requires
        is_child(child, parent, direction),
    ensures
        cell_key(child) == cell_key(parent).push(direction),
{
    lemma_field_bounds(parent);
    assert(cell_key(child) =~= cell_key(parent).push(direction));
}

/// What trimming leaves: a prefix that does not end in padding, in front of
/// nothing but padding.
pub proof fn lemma_trim(buf: Seq<u8>)
    ensures
        trim(buf).len() <= buf.len(),
        trim(buf) == buf.take(trim(buf).len() as int),
        trim(buf).len() > 0 ==> trim(buf).last() != PADDING,
        forall|i: int| trim(buf).len() <= i < buf.len() ==> buf[i] == PADDING,
    decreases buf.len(),
{
    if buf.len() > 0 && buf.last() == PADDING {
        let rest = buf.drop_last();
        lemma_trim(rest);
        assert(rest.take(trim(rest).len() as int) == buf.take(trim(rest).len() as int));
        assert forall|i: int| trim(buf).len() <= i < buf.len() implies buf[i] == PADDING by {
            if i < rest.len() {
                assert(rest[i] == buf[i]);
            }
        }
    } else {
        assert(buf.take(buf.len() as int) == buf);
    }
}

} // verus!
