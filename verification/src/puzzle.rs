//! The board: an 8x8 grid of tiles with a wall-count clue for each column and row.
use vstd::prelude::*;
use crate::bits::{holds, holds_col, lemma_pack_cells, pack};

verus! {

/// What a cell of the grid holds.
///
/// `Treasure` and `Monster` are terrain and never change. `Empty` is floor that a
/// solver may turn into `Wall`.
#[derive(Debug, Default, Copy, Clone, PartialEq, Eq, Structural)]
pub enum Tile {
    #[default]
    Empty,
    Wall,
    Treasure,
    Monster,
}

impl Tile {
    /// The mark that stands for the tile where a board is printed.
    pub fn to_str(&self) -> (mark: &'static str)
        ensures
            mark@ == (match *self {
                Tile::Empty => "\u{e2}\u{20ac}\u{a2}"@,
                Tile::Wall => "W"@,
                Tile::Treasure => "T"@,
                Tile::Monster => "M"@,
            }),
    {
        match self {
            Tile::Empty => "\u{e2}\u{20ac}\u{a2}",
            Tile::Wall => "W",
            Tile::Treasure => "T",
            Tile::Monster => "M",
        }
    }

    /// One for a monster lair, zero for anything else.
    pub fn is_monster(self) -> (bit: u64)
        ensures
            bit == (if self == Tile::Monster { 1u64 } else { 0u64 }),
    {
        if self == Tile::Monster {
            1
        } else {
            0
        }
    }
}

/// A puzzle instance: the grid, the number of walls wanted in each column
/// (`top_nums`) and in each row (`left_nums`), and the seed that the game made it
/// from, if it has one.
#[derive(Copy, Clone, Debug, PartialEq, Default)]
pub struct Puzzle {
    pub tiles: [[Tile; 8]; 8],
    pub top_nums: [u8; 8],
    pub left_nums: [u8; 8],
    pub seed: Option<u32>,
}

/// The mathematical model of a [`Puzzle`]: its 64 cells row by row, and its clues.
pub struct Board {
    pub cells: Seq<Tile>,
    pub top: Seq<u8>,
    pub left: Seq<u8>,
    pub seed: Option<u32>,
}

impl View for Puzzle {
    type V = Board;

    open spec fn view(&self) -> Board {
        Board {
            cells: Seq::new(64, |i: int| self.tiles[i / 8][i % 8]),
            top: self.top_nums@,
            left: self.left_nums@,
            seed: self.seed,
        }
    }
}

impl Board {
    /// A board has 64 cells and 8 clues on each side.
    pub open spec fn wf(self) -> bool {
        self.cells.len() == 64 && self.top.len() == 8 && self.left.len() == 8
    }

    /// The test whether a cell holds `kind`.
    pub open spec fn is_kind(self, kind: Tile) -> spec_fn(int) -> bool {
        |i: int| self.cells[i] == kind
    }

    /// The bitboard of the cells that hold `kind`.
    pub open spec fn mask(self, kind: Tile) -> u64 {
        pack(self.is_kind(kind), 64)
    }

    /// This board with a wall on each cell of row `row` whose column is in `bits`.
    pub open spec fn place_row(self, row: int, bits: u8) -> Board {
        Board {
            cells: Seq::new(
                64,
                |i: int|
                    if i / 8 == row && holds_col(bits, (i % 8) as u64) {
                        Tile::Wall
                    } else {
                        self.cells[i]
                    },
            ),
            ..self
        }
    }

    /// A bitboard holds exactly the cells of its kind.
    pub proof fn lemma_mask_cells(self, kind: Tile)
        ensures
            forall|i: u64|
                i < 64 ==> (#[trigger] holds(self.mask(kind), i) <==> self.cells[i as int] == kind),
    {
        lemma_pack_cells(self.is_kind(kind));
    }
}

impl Puzzle {
    /// Two puzzles with the same model are the same puzzle.
    pub proof fn lemma_view_is_all(self, other: Puzzle)
        requires
            self@ == other@,
        ensures
            self == other,
    {
        assert forall|r: int| 0 <= r < 8 implies self.tiles[r] == other.tiles[r] by {
            assert forall|c: int| 0 <= c < 8 implies self.tiles[r][c] == other.tiles[r][c] by {
                assert(self@.cells[r * 8 + c] == self.tiles[r][c]);
                assert(other@.cells[r * 8 + c] == other.tiles[r][c]);
            }
            assert(self.tiles[r] =~= other.tiles[r]);
        }
        assert(self.tiles =~= other.tiles);
        assert(self.top_nums =~= other.top_nums);
        assert(self.left_nums =~= other.left_nums);
    }

    /// The bitboard of the cells that hold `kind`: cell `(row, col)` is bit
    /// `63 - (row * 8 + col)`.
    pub fn terrain_mask(&self, kind: Tile) -> (m: u64)
        ensures
            m == self@.mask(kind),
            forall|i: u64| i < 64 ==> (#[trigger] holds(m, i) <==> self@.cells[i as int] == kind),
    {
        let mut m: u64 = 0;
        let mut i: usize = 0;
        while i < 64
            invariant
                i <= 64,
                m == pack(self@.is_kind(kind), i as nat),
            decreases 64 - i,
        {
            let bit: u64 = if self.tiles[i / 8][i % 8] == kind { 1 } else { 0 };
            m = (m << 1) | bit;
            i = i + 1;
        }
        proof {
            self@.lemma_mask_cells(kind);
            assert(m == self@.mask(kind));
        }
        m
    }

    /// A copy of this puzzle with a wall on each cell of row `row` whose column
    /// is in `wall_bits` (column 0 is the top bit). The clues and the seed stay.
    pub fn apply_walls(&self, row: usize, wall_bits: u8) -> (next: Puzzle)
        requires
            row < 8,
        ensures
            next@ == self@.place_row(row as int, wall_bits),
    {
        let mut tiles = self.tiles;
        let mut cells = tiles[row];
        let mut c: usize = 0;
        while c < 8
            invariant
                c <= 8,
                row < 8,
                forall|k: int|
                    0 <= k < 8 ==> cells[k] == (if k < c && holds_col(wall_bits, k as u64) {
                        Tile::Wall
                    } else {
                        self.tiles[row as int][k]
                    }),
            decreases 8 - c,
        {
            if (wall_bits >> (7 - c)) & 1 == 1 {
                cells[c] = Tile::Wall;
            }
            c = c + 1;
        }
        tiles[row] = cells;
        let next = Puzzle { tiles, top_nums: self.top_nums, left_nums: self.left_nums, seed: self.seed };
        proof {
            assert(next@.cells =~= self@.place_row(row as int, wall_bits).cells);
        }
        next
    }
}

} // verus!
