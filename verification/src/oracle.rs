//! The rules that a fully walled board must meet: every monster has exactly one
//! exit, the open cells form one region, and there are as many open 3x3 rooms as
//! treasures.
use vstd::prelude::*;
use crate::bits::{
    count_ones, count_where, holds, lemma_count_matches, lemma_disjoint_count, lemma_has_nonzero,
    lemma_has_ops, lemma_nonzero_has, lemma_pack_cells, lemma_same_cells, lemma_subset_count,
    pack, popcount, NOT_FIRST_COL, NOT_LAST_COL,
};
use crate::puzzle::{Board, Puzzle, Tile};

verus! {

/// The columns at which three cells in a row still fit on the grid.
pub const NOT_LAST_TWO_COLS: u64 = 0xfcfc_fcfc_fcfc_fcfc;

/// Whether the cells `i` and `j`, in rows `i / 8` and `j / 8`, are next to each
/// other on the grid: one above the other, or side by side in one row.
pub open spec fn adjacent(i: int, j: int) -> bool {
    0 <= i < 64 && 0 <= j < 64 && (j == i - 8 || j == i + 8 || (j == i - 1 && i % 8 != 0) || (j
        == i + 1 && i % 8 != 7))
}

/// The test whether a cell is in `s`.
pub open spec fn member_of(s: Set<int>) -> spec_fn(int) -> bool {
    |i: int| s.contains(i)
}

/// The cells next to a cell of `s`: above, below, left or right of it on the
/// grid. A row's end is not next to the following row's start.
pub open spec fn spread(s: u64) -> u64 {
    ((s << 1) & NOT_LAST_COL) | ((s >> 1) & NOT_FIRST_COL) | (s << 8) | (s >> 8)
}

/// `s` lies within `open`, and no cell of `open` outside `s` is next to a cell of `s`.
pub open spec fn closed_in(s: u64, open: u64) -> bool {
    s & !open == 0 && spread(s) & open & !s == 0
}

/// The cells of `open` form at most one region: no part of them, but all of
/// them, is closed off from the rest.
pub open spec fn connected(open: u64) -> bool {
    forall|s: u64| s != 0 && #[trigger] closed_in(s, open) ==> s == open
}

/// One round of flooding: `f` and the open cells reached from it by a step
/// left, then right, then down, then up.
pub open spec fn flood_step(f: u64, open: u64) -> u64 {
    let a = f | (((f << 1) & NOT_LAST_COL) & open);
    let b = a | (((a >> 1) & NOT_FIRST_COL) & open);
    let c = b | ((b << 8) & open);
    c | ((c >> 8) & open)
}

/// The monsters that see an empty cell in two directions, or in none.
pub open spec fn exit_conflicts(empties: u64, monsters: u64) -> u64 {
    let above = (empties >> 8) & monsters;
    let below = (empties << 8) & monsters;
    let right = (empties << 1) & monsters & NOT_LAST_COL;
    let left = (empties >> 1) & monsters & NOT_FIRST_COL;
    (above & right) | (above & left) | (above & below) | (left & right) | (left & below) | (right
        & below) | (!above & !left & !right & !below & monsters)
}

/// The top left corners of the 3x3 blocks that lie within `open`.
pub open spec fn room_anchors(open: u64) -> u64 {
    let three = open & ((open << 1) & NOT_LAST_COL) & ((open << 2) & NOT_LAST_TWO_COLS);
    three & (three << 8) & (three << 16)
}

impl Board {
    /// Whether cell `i` exists and is empty floor.
    pub open spec fn empty_at(self, i: int) -> bool {
        0 <= i < 64 && self.cells[i] == Tile::Empty
    }

    /// Whether cell `i` exists and is no wall and no monster.
    pub open spec fn open_at(self, i: int) -> bool {
        0 <= i < 64 && (self.cells[i] == Tile::Empty || self.cells[i] == Tile::Treasure)
    }

    /// The number of empty cells above, below, left and right of cell `i`, which
    /// is in row `i / 8` and column `i % 8`.
    pub open spec fn empty_neighbors(self, i: int) -> nat {
        (if i >= 8 && self.empty_at(i - 8) { 1nat } else { 0nat })
        + (if i < 56 && self.empty_at(i + 8) { 1nat } else { 0nat })
        + (if i % 8 != 0 && self.empty_at(i - 1) { 1nat } else { 0nat })
        + (if i % 8 != 7 && self.empty_at(i + 1) { 1nat } else { 0nat })
    }

    /// Every monster has exactly one empty cell next to it.
    pub open spec fn monsters_have_one_exit(self) -> bool {
        forall|i: int|
            0 <= i < 64 && #[trigger] self.cells[i] == Tile::Monster ==> self.empty_neighbors(i)
                == 1
    }

    /// Whether a step from a cell of `s` to an open cell next to it stays in `s`.
    pub open spec fn closed_under_steps(self, s: Set<int>) -> bool {
        forall|i: int, j: int|
            s.contains(i) && #[trigger] adjacent(i, j) && self.open_at(j) ==> s.contains(j)
    }

    /// A flood from any open cell reaches every open cell: a set that holds an
    /// open cell, and every open cell next to one of its own, holds them all.
    pub open spec fn one_region(self) -> bool {
        forall|s: Set<int>, a: int, b: int|
            #![trigger self.closed_under_steps(s), self.open_at(a), self.open_at(b)]
            self.closed_under_steps(s) && self.open_at(a) && s.contains(a) && self.open_at(b)
                ==> s.contains(b)
    }

    /// Whether some cell holds `kind`.
    pub open spec fn has_tile(self, kind: Tile) -> bool {
        exists|i: int| 0 <= i < 64 && #[trigger] self.cells[i] == kind
    }

    /// The open cells, empty floor and treasure, are one region, and where there
    /// is treasure there is empty floor too.
    pub open spec fn open_cells_connected(self) -> bool {
        self.one_region() && (self.has_tile(Tile::Treasure) ==> self.has_tile(Tile::Empty))
    }

    /// Whether the 3x3 block whose top left corner is cell `i` lies on the grid
    /// and is open throughout.
    pub open spec fn is_anchor(self, i: int) -> bool {
        0 <= i < 64 && i / 8 <= 5 && i % 8 <= 5
        && self.open_at(i) && self.open_at(i + 1) && self.open_at(i + 2)
        && self.open_at(i + 8) && self.open_at(i + 9) && self.open_at(i + 10)
        && self.open_at(i + 16) && self.open_at(i + 17) && self.open_at(i + 18)
    }

    /// The number of open 3x3 blocks.
    pub open spec fn anchor_count(self) -> nat {
        count_where(|i: int| self.is_anchor(i), 64)
    }

    /// The number of cells that hold `kind`.
    pub open spec fn tile_count(self, kind: Tile) -> nat {
        count_where(self.is_kind(kind), 64)
    }

    /// There are as many open 3x3 blocks as treasures.
    pub open spec fn rooms_match_treasures(self) -> bool {
        self.anchor_count() == self.tile_count(Tile::Treasure)
    }

    /// A fully walled board is accepted when it meets all three rules.
    pub open spec fn accepted(self) -> bool {
        self.monsters_have_one_exit() && self.open_cells_connected()
            && self.rooms_match_treasures()
    }
}

/// Which cells `spread` reaches, cell by cell.
pub proof fn lemma_spread_cells(s: u64, i: u64)
    by (bit_vector)
    requires
        i < 64,
    ensures
        holds(spread(s), i) == ((i >= 8 && holds(s, (i - 8) as u64)) || (i < 56 && holds(
            s,
            (i + 8) as u64,
        )) || (i % 8 != 0 && holds(s, (i - 1) as u64)) || (i % 8 != 7 && holds(s, (i + 1) as u64))),
{
}

/// Which monsters `exit_conflicts` marks, cell by cell.
proof fn lemma_exit_conflicts_cell(e: u64, m: u64, i: u64)
    by (bit_vector)
    requires
        i < 64,
    ensures
        holds(exit_conflicts(e, m), i) == (holds(m, i) && {
            let u = i >= 8 && holds(e, (i - 8) as u64);
            let d = i < 56 && holds(e, (i + 8) as u64);
            let l = i % 8 != 0 && holds(e, (i - 1) as u64);
            let r = i % 8 != 7 && holds(e, (i + 1) as u64);
            !((u && !d && !l && !r) || (!u && d && !l && !r) || (!u && !d && l && !r) || (!u && !d
                && !l && r))
        }),
{
}

/// Which cells `room_anchors` marks, cell by cell.
proof fn lemma_room_anchors_cell(o: u64, i: u64)
    by (bit_vector)
    requires
        i < 64,
    ensures
        holds(room_anchors(o), i) == (i / 8 <= 5 && i % 8 <= 5 && holds(o, i) && holds(
            o,
            (i + 1) as u64,
        ) && holds(o, (i + 2) as u64) && holds(o, (i + 8) as u64) && holds(o, (i + 9) as u64)
            && holds(o, (i + 10) as u64) && holds(o, (i + 16) as u64) && holds(
            o,
            (i + 17) as u64,
        ) && holds(o, (i + 18) as u64)),
{
}

/// One round of flooding stays within the open cells, loses nothing, and stays
/// within every closed set that the flood was in.
proof fn lemma_flood_step(f: u64, open: u64, s: u64)
    by (bit_vector)
    requires
        f & !open == 0,
    ensures
        flood_step(f, open) & !open == 0,
        f & !f == 0,
        s & !f == 0 ==> s & !flood_step(f, open) == 0,
        flood_step(f, open) != f ==> flood_step(f, open) > f,
        flood_step(f, open) == f ==> closed_in(f, open),
        closed_in(s, open) && f & !s == 0 ==> flood_step(f, open) & !s == 0,
{
}

/// The least set of open cells that holds `seed` and is closed off from the
/// other open cells.
fn flood_fill(seed: u64, open: u64) -> (flood: u64)
    requires
        seed & !open == 0,
    ensures
        closed_in(flood, open),
        seed & !flood == 0,
        forall|s: u64| #[trigger] closed_in(s, open) && seed & !s == 0 ==> flood & !s == 0,
{
    let mut flood = seed;
    proof {
        lemma_flood_step(seed, open, seed);
    }
    loop
        invariant
            flood & !open == 0,
            seed & !flood == 0,
            forall|s: u64| #[trigger] closed_in(s, open) && seed & !s == 0 ==> flood & !s == 0,
        ensures
            closed_in(flood, open),
        decreases u64::MAX - flood,
    {
        let mut next = flood;
        next |= ((flood << 1) & NOT_LAST_COL) & open;
        next |= ((next >> 1) & NOT_FIRST_COL) & open;
        next |= (next << 8) & open;
        next |= (next >> 8) & open;
        proof {
            assert(next == flood_step(flood, open));
            lemma_flood_step(flood, open, seed);
            assert forall|s: u64| #[trigger] closed_in(s, open) && seed & !s == 0 implies next
                & !s == 0 by {
                lemma_flood_step(flood, open, s);
            }
        }
        if next == flood {
            break ;
        }
        flood = next;
    }
    flood
}

/// In one region, a set that holds an open cell and every open cell next to
/// one of its own holds every open cell.
pub proof fn lemma_connected_reach(open: u64, s: u64)
    requires
        connected(open),
        s & open != 0,
        spread(s) & open & !s == 0,
    ensures
        open & !s == 0,
{
    let part = s & open;
    assert(closed_in(part, open)) by (bit_vector)
        requires
            part == s & open,
            spread(s) & open & !s == 0,
    ;
    assert(open & !s == 0) by (bit_vector)
        requires
            s & open == open,
    ;
}

/// What holds of a single cell `seed` among the open cells: a closed set holds
/// it or its complement does, and the complement of a closed set is closed.
proof fn lemma_closed_sets(seed: u64, tz: u64, open: u64, s: u64)
    by (bit_vector)
    requires
        tz < 64,
        seed == 1u64 << tz,
        seed & !open == 0,
        closed_in(s, open),
    ensures
        closed_in(open & !s, open),
        seed & !s == 0 || seed & !(open & !s) == 0,
        open & !s == 0 ==> s == open,
        open & !(open & !s) == 0 ==> s == 0,
{
}

/// What holds of the flood's seed, the lowest cell of `empties` or nothing, and
/// of a set `f` of open cells where there is no empty cell.
proof fn lemma_seed(empties: u64, treasures: u64, tz: u64, seed: u64, f: u64)
    by (bit_vector)
    requires
        tz < 64 ==> (empties >> tz) & 1 == 1 && seed == 1u64 << tz,
        tz >= 64 ==> seed == 0 && empties == 0,
    ensures
        seed & !(empties | treasures) == 0,
        tz < 64 ==> seed != 0 && empties != 0,
        seed != 0 && seed & !f == 0 ==> f != 0,
        tz >= 64 ==> seed & !0u64 == 0 && empties | treasures == treasures && closed_in(
            0,
            empties | treasures,
        ),
        f & !0u64 == 0 ==> f == 0,
        treasures == 0 && tz >= 64 && f & !(empties | treasures) == 0 ==> f == 0,
{
}

/// Whether the open cells are one region that a flood from the lowest set bit of
/// `empties` covers.
fn region_ok(empties: u64, treasures: u64) -> (ok: bool)
    requires
        empties & treasures == 0,
    ensures
        ok == (connected(empties | treasures) && (empties == 0 ==> treasures == 0)),
{
    let open = empties | treasures;
    let tz = empties.trailing_zeros();
    proof {
        vstd::std_specs::bits::axiom_u64_trailing_zeros(empties);
    }
    let seed: u64 = if tz < 64 { 1u64 << tz } else { 0 };
    proof {
        lemma_seed(empties, treasures, tz as u64, seed, 0);
    }
    let flood = flood_fill(seed, open);
    let ok = count_ones(flood) == count_ones(empties) + count_ones(treasures);
    proof {
        lemma_subset_count(flood, open);
        lemma_disjoint_count(empties, treasures, 64);
        lemma_seed(empties, treasures, tz as u64, seed, flood);
        if empties == 0 {
            if treasures == 0 {
                assert forall|s: u64| s != 0 && #[trigger] closed_in(s, open) implies s
                    == open by {
                    lemma_seed(empties, treasures, tz as u64, seed, s);
                }
            }
        } else if flood == open {
            assert forall|s: u64| s != 0 && #[trigger] closed_in(s, open) implies s == open by {
                lemma_closed_sets(seed, tz as u64, open, s);
                if seed & !s == 0 {
                    assert(flood & !s == 0);
                } else {
                    assert(closed_in(open & !s, open));
                    assert(flood & !(open & !s) == 0);
                }
            }
        }
    }
    ok
}

/// Whether no monster sees an empty cell in two directions or in none.
fn exits_ok(empties: u64, monsters: u64) -> (ok: bool)
    ensures
        ok == (exit_conflicts(empties, monsters) == 0),
{
    let above = (empties >> 8) & monsters;
    let below = (empties << 8) & monsters;
    let right = (empties << 1) & monsters & NOT_LAST_COL;
    let left = (empties >> 1) & monsters & NOT_FIRST_COL;
    let walled_in = !above & !left & !right & !below & monsters;
    proof {
        assert(((above & right) | (above & left) | (above & below) | (left & right) | (left
            & below) | (right & below) | walled_in) == 0 <==> (above & right == 0 && above & left
            == 0 && above & below == 0 && left & right == 0 && left & below == 0 && right & below
            == 0 && walled_in == 0)) by (bit_vector);
    }
    if above & right > 0 || above & left > 0 || above & below > 0 || left & right > 0 || left
        & below > 0 || right & below > 0 {
        return false;
    }
    if walled_in > 0 {
        return false;
    }
    true
}

/// Whether there are as many open 3x3 blocks as treasures.
fn rooms_ok(open: u64, treasures: u64) -> (ok: bool)
    ensures
        ok == (popcount(room_anchors(open)) == popcount(treasures)),
{
    let mut rooms = open;
    rooms = rooms & ((open << 1) & NOT_LAST_COL);
    rooms = rooms & ((open << 2) & NOT_LAST_TWO_COLS);
    rooms = rooms & (rooms << 8) & (rooms << 16);
    count_ones(rooms) == count_ones(treasures)
}

impl Board {
    /// Two kinds of tile share no cell.
    proof fn lemma_masks_disjoint(self, a: Tile, b: Tile)
        requires
            a != b,
        ensures
            self.mask(a) & self.mask(b) == 0,
    {
        let both = self.mask(a) & self.mask(b);
        if both != 0 {
            lemma_nonzero_has(both);
            let i = choose|i: u64| holds(both, i);
            lemma_has_ops(self.mask(a), self.mask(b), i);
            self.lemma_mask_cells(a);
            self.lemma_mask_cells(b);
        }
    }

    /// The bitboard of the open cells holds exactly those.
    proof fn lemma_open_cells(self)
        ensures
            forall|i: u64|
                i < 64 ==> holds(self.mask(Tile::Empty) | self.mask(Tile::Treasure), i)
                    == self.open_at(i as int),
    {
        self.lemma_mask_cells(Tile::Empty);
        self.lemma_mask_cells(Tile::Treasure);
        assert forall|i: u64| i < 64 implies holds(
            self.mask(Tile::Empty) | self.mask(Tile::Treasure),
            i,
        ) == self.open_at(i as int) by {
            lemma_has_ops(self.mask(Tile::Empty), self.mask(Tile::Treasure), i);
        }
    }

    /// No monster is marked exactly when every monster has one exit.
    proof fn lemma_exits(self)
        requires
            self.wf(),
        ensures
            (exit_conflicts(self.mask(Tile::Empty), self.mask(Tile::Monster)) == 0)
                == self.monsters_have_one_exit(),
    {
        let e = self.mask(Tile::Empty);
        let m = self.mask(Tile::Monster);
        let bad = exit_conflicts(e, m);
        self.lemma_mask_cells(Tile::Empty);
        self.lemma_mask_cells(Tile::Monster);
        if bad == 0 {
            assert forall|i: int| 0 <= i < 64 && #[trigger] self.cells[i]
                == Tile::Monster implies self.empty_neighbors(i) == 1 by {
                let k = i as u64;
                lemma_exit_conflicts_cell(e, m, k);
                if holds(bad, k) {
                    lemma_has_nonzero(bad, k);
                }
                assert(holds(m, k));
            }
        } else {
            lemma_nonzero_has(bad);
            let k = choose|k: u64| holds(bad, k);
            lemma_exit_conflicts_cell(e, m, k);
            assert(self.cells[k as int] == Tile::Monster);
            assert(self.empty_neighbors(k as int) != 1);
        }
    }

    /// The bitboards of the rooms and of the treasures hold as many cells as
    /// the board has of each.
    proof fn lemma_rooms(self)
        requires
            self.wf(),
        ensures
            popcount(room_anchors(self.mask(Tile::Empty) | self.mask(Tile::Treasure)))
                == self.anchor_count(),
            popcount(self.mask(Tile::Treasure)) == self.tile_count(Tile::Treasure),
    {
        let o = self.mask(Tile::Empty) | self.mask(Tile::Treasure);
        self.lemma_open_cells();
        self.lemma_mask_cells(Tile::Treasure);
        assert forall|i: u64| i < 64 implies holds(room_anchors(o), i) == self.is_anchor(
            i as int,
        ) by {
            lemma_room_anchors_cell(o, i);
        }
        lemma_count_matches(room_anchors(o), |i: int| self.is_anchor(i), 64);
        lemma_count_matches(self.mask(Tile::Treasure), self.is_kind(Tile::Treasure), 64);
    }
}

impl Board {
    /// A board has a tile of a kind exactly where the bitboard of the kind is not zero.
    proof fn lemma_has_tile(self, kind: Tile)
        ensures
            self.has_tile(kind) <==> self.mask(kind) != 0,
    {
        self.lemma_mask_cells(kind);
        if self.has_tile(kind) {
            let i = choose|i: int| 0 <= i < 64 && #[trigger] self.cells[i] == kind;
            lemma_has_nonzero(self.mask(kind), i as u64);
        }
        if self.mask(kind) != 0 {
            lemma_nonzero_has(self.mask(kind));
            let i = choose|i: u64| holds(self.mask(kind), i);
            assert(self.cells[i as int] == kind);
        }
    }

    /// The open cells are one region exactly when their bitboard is connected.
    proof fn lemma_one_region(self)
        ensures
            self.one_region() <==> connected(self.mask(Tile::Empty) | self.mask(Tile::Treasure)),
    {
        let open = self.mask(Tile::Empty) | self.mask(Tile::Treasure);
        self.lemma_open_cells();
        if connected(open) {
            assert forall|s: Set<int>, a: int, b: int|
                #![trigger self.closed_under_steps(s), self.open_at(a), self.open_at(b)]
                self.closed_under_steps(s) && self.open_at(a) && s.contains(a) && self.open_at(
                    b,
                ) implies s.contains(b) by {
                let m = pack(member_of(s), 64);
                lemma_pack_cells(member_of(s));
                let rest = spread(m) & open & !m;
                if rest != 0 {
                    lemma_nonzero_has(rest);
                    let j = choose|j: u64| holds(rest, j);
                    lemma_has_ops(spread(m) & open, !m, j);
                    lemma_has_ops(spread(m), open, j);
                    lemma_has_ops(m, m, j);
                    lemma_spread_cells(m, j);
                    assert(adjacent(j - 8, j as int) || j < 8);
                    assert(adjacent(j + 8, j as int) || j >= 56);
                    assert(adjacent(j - 1, j as int) || j % 8 == 0);
                    assert(adjacent(j + 1, j as int) || j % 8 == 7);
                    assert(false);
                }
                lemma_has_ops(m, open, a as u64);
                lemma_has_nonzero(m & open, a as u64);
                lemma_connected_reach(open, m);
                if !s.contains(b) {
                    lemma_has_ops(open, !m, b as u64);
                    lemma_has_ops(m, m, b as u64);
                    lemma_has_nonzero(open & !m, b as u64);
                }
            }
        }
        if self.one_region() {
            assert forall|m: u64| m != 0 && #[trigger] closed_in(m, open) implies m == open by {
                let s = Set::new(|i: int| 0 <= i < 64 && holds(m, i as u64));
                lemma_nonzero_has(m);
                let a = choose|a: u64| holds(m, a);
                assert forall|i: u64| i < 64 && holds(m, i) implies holds(open, i) by {
                    lemma_has_ops(m, !open, i);
                    lemma_has_ops(open, open, i);
                    if !holds(open, i) {
                        lemma_has_nonzero(m & !open, i);
                    }
                }
                assert forall|i: int, j: int|
                    s.contains(i) && #[trigger] adjacent(i, j) && self.open_at(j) implies s.contains(
                    j,
                ) by {
                    let k = j as u64;
                    lemma_spread_cells(m, k);
                    lemma_has_ops(spread(m) & open, !m, k);
                    lemma_has_ops(spread(m), open, k);
                    lemma_has_ops(m, m, k);
                    if !holds(m, k) {
                        lemma_has_nonzero(spread(m) & open & !m, k);
                    }
                }
                assert(self.closed_under_steps(s));
                assert(s.contains(a as int) && self.open_at(a as int));
                assert forall|i: u64| i < 64 implies holds(m, i) == holds(open, i) by {
                    if holds(open, i) {
                        assert(self.open_at(i as int));
                        assert(s.contains(i as int));
                    }
                }
                lemma_same_cells(m, open);
            }
        }
    }
}

/// Decides whether a fully walled board meets the three rules.
pub fn is_valid_solution(puzzle: &Puzzle) -> (ok: bool)
    ensures
        ok == puzzle@.accepted(),
{
    let monsters = puzzle.terrain_mask(Tile::Monster);
    let treasures = puzzle.terrain_mask(Tile::Treasure);
    let empties = puzzle.terrain_mask(Tile::Empty);
    proof {
        puzzle@.lemma_exits();
        puzzle@.lemma_rooms();
        puzzle@.lemma_one_region();
        puzzle@.lemma_has_tile(Tile::Empty);
        puzzle@.lemma_has_tile(Tile::Treasure);
        puzzle@.lemma_masks_disjoint(Tile::Empty, Tile::Treasure);
    }
    if !exits_ok(empties, monsters) {
        return false;
    }
    if !region_ok(empties, treasures) {
        return false;
    }
    rooms_ok(empties | treasures, treasures)
}

} // verus!
