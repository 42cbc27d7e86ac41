//! The record of a puzzle: 26 bytes that hold the seed, the clues and the
//! places of the monsters and treasures.
//!
//! | offset | bytes | content |
//! |---|---|---|
//! | 0 | 4 | the seed plus one, or 0 where there is none, little-endian |
//! | 4 | 6 | the 16 clues, three bits each, the first one highest, little-endian |
//! | 10 | 8 | the bitboard of the monsters, little-endian |
//! | 18 | 8 | the bitboard of the treasures, little-endian |
//!
//! A clue above 7 is stored as 7, and walls are not stored at all.
use vstd::prelude::*;
use vstd::slice::slice_subrange;
use crate::bits::holds;
use crate::endian::{
    byte_of, le_bytes, le_u32, le_u48, le_u64, lemma_le_round_trip, read_u32_le, read_u64_le,
    u32_to_le, u64_to_le,
};
use crate::puzzle::{Board, Puzzle, Tile};

verus! {

/// The length of a record in bytes.
pub const RECORD_LEN: usize = 26;

/// Why bytes could not be read as a puzzle.
#[derive(Debug, Copy, Clone, PartialEq, Eq)]
pub enum ParseError {
    /// The bytes are not exactly one record.
    MalformedRecord,
    /// A clue on the screen shows no known digit.
    UnknownDigit,
    /// The seed on the screen shows no known digit, or is too large.
    BadSeed,
}

/// A clue as it is stored: at most 7.
pub open spec fn clamped(x: u8) -> u8 {
    if x > 7 {
        7
    } else {
        x
    }
}

/// After `n` fields of three bits, field `j` stands `3 * (n - 1 - j)` bits
/// above the lowest.
pub open spec fn field_of(m: u64, n: nat, j: int) -> u8 {
    ((m >> ((3 * (n - 1 - j)) as u64)) & 7) as u8
}

impl Board {
    /// Clue `j` of the sixteen: the eight of the columns, then the eight of the rows.
    pub open spec fn clue(self, j: int) -> u8 {
        if j < 8 {
            self.top[j]
        } else {
            self.left[j - 8]
        }
    }

    /// The first `n` clues, three bits each, the first one highest.
    pub open spec fn clues_below(self, n: nat) -> u64
        decreases n,
    {
        if n == 0 {
            0
        } else {
            (self.clues_below((n - 1) as nat) << 3) | (clamped(self.clue(n - 1)) as u64)
        }
    }

    /// The number in the first four bytes: the seed plus one, cut to 32 bits,
    /// or 0 without a seed.
    pub open spec fn seed_field(self) -> u32 {
        match self.seed {
            Some(x) => if x == u32::MAX {
                0
            } else {
                (x + 1) as u32
            },
            None => 0,
        }
    }

    /// The record of this board.
    pub open spec fn record(self) -> Seq<u8> {
        le_bytes(self.seed_field() as u64, 4) + le_bytes(self.clues_below(16), 6) + le_bytes(
            self.mask(Tile::Monster),
            8,
        ) + le_bytes(self.mask(Tile::Treasure), 8)
    }

    /// Whether a record can hold all of this board: it has no wall, no clue
    /// above 7, and its seed plus one fits in 32 bits.
    pub open spec fn storable(self) -> bool {
        &&& forall|i: int| 0 <= i < 64 ==> #[trigger] self.cells[i] != Tile::Wall
        &&& forall|j: int| 0 <= j < 8 ==> #[trigger] self.top[j] <= 7
        &&& forall|j: int| 0 <= j < 8 ==> #[trigger] self.left[j] <= 7
        &&& self.seed != Some(u32::MAX)
    }
}

/// The board that a record of 26 bytes holds.
pub open spec fn decoded(bytes: Seq<u8>) -> Board {
    let seed = le_u32(bytes.subrange(0, 4));
    let clues = le_u48(bytes.subrange(4, 10));
    let monsters = le_u64(bytes.subrange(10, 18));
    let treasures = le_u64(bytes.subrange(18, 26));
    Board {
        cells: Seq::new(
            64,
            |i: int|
                if holds(monsters, i as u64) {
                    Tile::Monster
                } else if holds(treasures, i as u64) {
                    Tile::Treasure
                } else {
                    Tile::Empty
                },
        ),
        top: Seq::new(8, |j: int| field_of(clues, 16, j)),
        left: Seq::new(8, |j: int| field_of(clues, 16, j + 8)),
        seed: if seed == 0 {
            None
        } else {
            Some((seed - 1) as u32)
        },
    }
}

/// Where each clue stands among the packed ones, and that nothing stands above them.
proof fn lemma_clues_below(b: Board, n: nat)
    requires
        n <= 16,
    ensures
        forall|j: int| 0 <= j < n ==> #[trigger] field_of(b.clues_below(n), n, j) == clamped(b.clue(j)),
        b.clues_below(n) >> ((3 * n) as u64) == 0,
    decreases n,
{
    if n > 0 {
        lemma_clues_below(b, (n - 1) as nat);
        let a = b.clues_below((n - 1) as nat);
        let x = clamped(b.clue(n - 1)) as u64;
        let m = b.clues_below(n);
        let top = (3 * n) as u64;
        let below = (3 * (n - 1)) as u64;
        assert(m == (a << 3) | x);
        assert(((a << 3) | x) >> top == 0 && ((((a << 3) | x) >> 0) & 7) as u8 == x) by (bit_vector)
            requires
                x <= 7,
                top <= 48,
                below == top - 3,
                a >> below == 0,
        ;
        assert forall|j: int| 0 <= j < n implies #[trigger] field_of(m, n, j) == clamped(
            b.clue(j),
        ) by {
            if j < n - 1 {
                let p = (3 * (n - 1 - j)) as u64;
                let q = (3 * ((n - 1) - 1 - j)) as u64;
                assert(field_of(a, (n - 1) as nat, j) == ((a >> q) & 7) as u8);
                assert(((((a << 3) | x) >> p) & 7) as u8 == ((a >> q) & 7) as u8) by (bit_vector)
                    requires
                        x <= 7,
                        3 <= p <= 45,
                        q == p - 3,
                ;
            }
        }
    } else {
        assert(0u64 >> 0 == 0) by (bit_vector);
    }
}

impl Board {
    /// Reading a record gives back the board that was written, where the
    /// record can hold all of it.
    pub proof fn lemma_round_trip(self)
        requires
            self.wf(),
            self.storable(),
        ensures
            self.record().len() == 26,
            decoded(self.record()) == self,
    {
        let r = self.record();
        let seed = self.seed_field() as u64;
        let clues = self.clues_below(16);
        let monsters = self.mask(Tile::Monster);
        let treasures = self.mask(Tile::Treasure);
        assert(r.subrange(0, 4) =~= le_bytes(seed, 4));
        assert(r.subrange(4, 10) =~= le_bytes(clues, 6));
        assert(r.subrange(10, 18) =~= le_bytes(monsters, 8));
        assert(r.subrange(18, 26) =~= le_bytes(treasures, 8));
        lemma_le_round_trip(seed);
        lemma_le_round_trip(clues);
        lemma_le_round_trip(monsters);
        lemma_le_round_trip(treasures);
        lemma_clues_below(self, 16);
        self.lemma_mask_cells(Tile::Monster);
        self.lemma_mask_cells(Tile::Treasure);
        let d = decoded(r);
        assert(d.cells =~= self.cells) by {
            assert forall|i: int| 0 <= i < 64 implies d.cells[i] == self.cells[i] by {
                assert(holds(monsters, i as u64) <==> self.cells[i] == Tile::Monster);
                assert(holds(treasures, i as u64) <==> self.cells[i] == Tile::Treasure);
                assert(self.cells[i] != Tile::Wall);
            }
        }
        assert(d.top =~= self.top) by {
            assert forall|j: int| 0 <= j < 8 implies d.top[j] == self.top[j] by {
                assert(field_of(clues, 16, j) == clamped(self.clue(j)));
                assert(self.top[j] <= 7);
            }
        }
        assert(d.left =~= self.left) by {
            assert forall|j: int| 0 <= j < 8 implies d.left[j] == self.left[j] by {
                assert(field_of(clues, 16, j + 8) == clamped(self.clue(j + 8)));
                assert(self.left[j] <= 7);
            }
        }
    }
}

/// Puts `bytes` at the end of `out`.
fn push_all(out: &mut Vec<u8>, bytes: &[u8])
    ensures
        final(out)@ == old(out)@ + bytes@,
{
    let mut k: usize = 0;
    while k < bytes.len()
        invariant
            k <= bytes@.len(),
            out@ == old(out)@ + bytes@.subrange(0, k as int),
        decreases bytes@.len() - k,
    {
        out.push(bytes[k]);
        proof {
            assert(out@ =~= old(out)@ + bytes@.subrange(0, k + 1));
        }
        k = k + 1;
    }
    proof {
        assert(bytes@.subrange(0, k as int) =~= bytes@);
    }
}

/// Puts the six lowest bytes of `v` at the end of `out`, lowest first.
fn push_u48_le(out: &mut Vec<u8>, v: u64)
    ensures
        final(out)@ == old(out)@ + le_bytes(v, 6),
{
    let mut k: usize = 0;
    while k < 6
        invariant
            k <= 6,
            out@ == old(out)@ + le_bytes(v, k as nat),
        decreases 6 - k,
    {
        let shifted: u64 = v >> (8 * k);
        assert(shifted & 0xff <= 255) by (bit_vector);
        out.push((shifted & 0xff) as u8);
        proof {
            assert(out@ =~= old(out)@ + le_bytes(v, (k + 1) as nat));
        }
        k = k + 1;
    }
}

impl Puzzle {
    /// The sixteen clues, each cut down to 7, three bits each, the first one highest.
    fn pack_clues(&self) -> (m: u64)
        ensures
            m == self@.clues_below(16),
    {
        let mut m: u64 = 0;
        let mut j: usize = 0;
        while j < 16
            invariant
                j <= 16,
                m == self@.clues_below(j as nat),
            decreases 16 - j,
        {
            let clue: u8 = if j < 8 { self.top_nums[j] } else { self.left_nums[j - 8] };
            let clue: u8 = if clue > 7 { 7 } else { clue };
            m = (m << 3) | (clue as u64);
            j = j + 1;
        }
        m
    }

    /// Puts the record of this puzzle at the end of `out`. A clue above 7 is
    /// written as 7, walls are left out, and the seed `u32::MAX` is written
    /// like no seed.
    pub fn serialize(&self, out: &mut Vec<u8>)
        ensures
            final(out)@ == old(out)@ + self@.record(),
            final(out)@.len() == old(out)@.len() + 26,
    {
        let clues = self.pack_clues();
        let monsters = self.terrain_mask(Tile::Monster);
        let treasures = self.terrain_mask(Tile::Treasure);
        let seed: u32 = match self.seed {
            Some(x) => if x == u32::MAX { 0 } else { x + 1 },
            None => 0,
        };
        let seed_bytes = u32_to_le(seed);
        push_all(out, seed_bytes.as_slice());
        push_u48_le(out, clues);
        let monster_bytes = u64_to_le(monsters);
        push_all(out, monster_bytes.as_slice());
        let treasure_bytes = u64_to_le(treasures);
        push_all(out, treasure_bytes.as_slice());
        proof {
            assert(out@ =~= old(out)@ + self@.record());
        }
    }

    /// What is read from the record of a puzzle is that puzzle, where the
    /// record can hold all of it.
    pub proof fn lemma_read_back(self, read: Puzzle)
        requires
            self@.storable(),
            read@ == decoded(self@.record()),
        ensures
            read == self,
    {
        self@.lemma_round_trip();
        read.lemma_view_is_all(self);
    }

    /// Reads a record. Bytes that are not exactly 26 are refused; any 26 bytes
    /// hold a puzzle.
    pub fn deserialize(bytes: &[u8]) -> (res: Result<Puzzle, ParseError>)
        ensures
            bytes@.len() == 26 ==> res is Ok && res->Ok_0@ == decoded(bytes@),
            bytes@.len() != 26 ==> res == Err::<Puzzle, ParseError>(ParseError::MalformedRecord),
    {
        if bytes.len() != RECORD_LEN {
            return Err(ParseError::MalformedRecord);
        }
        let seed = read_u32_le(slice_subrange(bytes, 0, 4));
        let seed = if seed == 0 { None } else { Some(seed - 1) };
        let clues: u64 = (bytes[4] as u64) | ((bytes[5] as u64) << 8) | ((bytes[6] as u64) << 16)
            | ((bytes[7] as u64) << 24) | ((bytes[8] as u64) << 32) | ((bytes[9] as u64) << 40);
        assert(clues == le_u48(bytes@.subrange(4, 10)));
        let monsters = read_u64_le(slice_subrange(bytes, 10, 18));
        let treasures = read_u64_le(slice_subrange(bytes, 18, 26));
        let ghost want = decoded(bytes@);
        let mut top_nums = [0u8;8];
        let mut left_nums = [0u8;8];
        let mut j: usize = 0;
        while j < 8
            invariant
                j <= 8,
                forall|k: int| 0 <= k < j ==> top_nums[k] == field_of(clues, 16, k),
                forall|k: int| 0 <= k < j ==> left_nums[k] == field_of(clues, 16, k + 8),
            decreases 8 - j,
        {
            let top: u64 = clues >> (45 - 3 * j);
            let left: u64 = clues >> (21 - 3 * j);
            assert(top & 7 <= 7 && left & 7 <= 7) by (bit_vector);
            top_nums[j] = (top & 7) as u8;
            left_nums[j] = (left & 7) as u8;
            j = j + 1;
        }
        let mut tiles = [[Tile::Empty;8];8];
        let mut i: usize = 0;
        while i < 64
            invariant
                i <= 64,
                forall|k: int| 0 <= k < i ==> tiles[k / 8][k % 8] == #[trigger] want.cells[k],
                want == decoded(bytes@),
                bytes@.len() == 26,
                monsters == le_u64(bytes@.subrange(10, 18)),
                treasures == le_u64(bytes@.subrange(18, 26)),
            decreases 64 - i,
        {
            let monster = (monsters >> (63 - i)) & 1 == 1;
            let treasure = (treasures >> (63 - i)) & 1 == 1;
            let tile = if monster {
                Tile::Monster
            } else if treasure {
                Tile::Treasure
            } else {
                Tile::Empty
            };
            let mut row = tiles[i / 8];
            row[i % 8] = tile;
            tiles[i / 8] = row;
            assert(tile == want.cells[i as int]);
            i = i + 1;
        }
        let puzzle = Puzzle { tiles, top_nums, left_nums, seed };
        proof {
            assert(puzzle@.cells =~= want.cells);
            assert(puzzle@.top =~= want.top);
            assert(puzzle@.left =~= want.left);
        }
        Ok(puzzle)
    }
}

/// Reads the records of a data file: as many as fit, one after the other. Bytes
/// after the last whole record are left out.
pub fn read_records(bytes: &[u8]) -> (puzzles: Vec<Puzzle>)
    ensures
        puzzles@.len() == bytes@.len() / 26,
        forall|k: int|
            0 <= k < puzzles@.len() ==> (#[trigger] puzzles@[k])@ == decoded(
                bytes@.subrange(26 * k, 26 * k + 26),
            ),
{
    let mut puzzles: Vec<Puzzle> = Vec::new();
    let count = bytes.len() / RECORD_LEN;
    let mut k: usize = 0;
    while k < count
        invariant
            k <= count,
            count == bytes@.len() / 26,
            bytes@.len() <= usize::MAX,
            puzzles@.len() == k,
            forall|j: int|
                0 <= j < k ==> (#[trigger] puzzles@[j])@ == decoded(
                    bytes@.subrange(26 * j, 26 * j + 26),
                ),
        decreases count - k,
    {
        assert(26 * (k + 1) <= 26 * count <= bytes@.len());
        let start: usize = 26 * k;
        let record = slice_subrange(bytes, start, start + RECORD_LEN);
        match Puzzle::deserialize(record) {
            Ok(puzzle) => {
                puzzles.push(puzzle);
            },
            Err(_) => {
                proof {
                    assert(false);
                }
            },
        }
        k = k + 1;
    }
    puzzles
}

} // verus!
