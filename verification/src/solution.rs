//! What holds of every wall bitmap that the search reaches.
use vstd::prelude::*;
use crate::bits::{
    count_where, holds, holds_col, lemma_holds_col_ops, lemma_pack_row, lemma_row_subset,
    lemma_has_ops, lemma_nonzero_has, lemma_order, lemma_part, lemma_row_within, lemma_same_cells,
    lemma_shifted_cells, pack_row, popcount8,
};
use crate::puzzle::{Board, Tile};
use crate::solve::{pick, spend, wanting};

verus! {

/// The test whether `w` holds the cell of row `r` in a column.
pub open spec fn row_cells(w: u64, r: int) -> spec_fn(int) -> bool {
    |c: int| holds(w, (r * 8 + c) as u64)
}

/// The test whether `w` holds the cell of column `c` in a row.
pub open spec fn col_cells(w: u64, c: int) -> spec_fn(int) -> bool {
    |r: int| holds(w, (r * 8 + c) as u64)
}

/// The number of cells of row `r` that `w` holds.
pub open spec fn row_bits(w: u64, r: int) -> nat {
    count_where(row_cells(w, r), 8)
}

/// The number of cells of column `c` that `w` holds.
pub open spec fn col_bits(w: u64, c: int) -> nat {
    count_where(col_cells(w, c), 8)
}

/// The sum of eight clues.
pub open spec fn clue_sum(clues: Seq<u8>) -> int {
    clues[0] + clues[1] + clues[2] + clues[3] + clues[4] + clues[5] + clues[6] + clues[7]
}

impl Board {
    /// This board with a wall on each empty cell that `w` holds.
    pub open spec fn with_walls(self, w: u64) -> Board {
        Board {
            cells: Seq::new(
                64,
                |i: int|
                    if self.cells[i] == Tile::Empty && holds(w, i as u64) {
                        Tile::Wall
                    } else {
                        self.cells[i]
                    },
            ),
            ..self
        }
    }

    /// The test whether `w` puts a wall on the empty cell of row `r` in a column.
    pub open spec fn walled_in_row(self, w: u64, r: int) -> spec_fn(int) -> bool {
        |c: int| self.cells[r * 8 + c] == Tile::Empty && holds(w, (r * 8 + c) as u64)
    }

    /// The test whether `w` puts a wall on the empty cell of column `c` in a
    /// row from `d` on.
    pub open spec fn walled_in_col(self, w: u64, c: int, d: int) -> spec_fn(int) -> bool {
        |r: int| r >= d && self.cells[r * 8 + c] == Tile::Empty && holds(w, (r * 8 + c) as u64)
    }

    /// A board without walls.
    pub open spec fn unwalled(self) -> bool {
        forall|i: int| 0 <= i < 64 ==> #[trigger] self.cells[i] != Tile::Wall
    }
}

/// Two tests that agree below `n`, but perhaps at `k`, hold equally often but for `k`.
proof fn lemma_count_but_one(f: spec_fn(int) -> bool, g: spec_fn(int) -> bool, n: nat, k: int)
    requires
        forall|i: int| 0 <= i < n && i != k ==> #[trigger] f(i) == g(i),
    ensures
        0 <= k < n ==> count_where(f, n) - (if f(k) { 1int } else { 0int }) == count_where(g, n) - (if g(k) { 1int } else { 0int }),
        !(0 <= k < n) ==> count_where(f, n) == count_where(g, n),
    decreases n,
{
    if n > 0 {
        lemma_count_but_one(f, g, (n - 1) as nat, k);
    }
}

/// The test whether the row byte `s` holds a column.
pub open spec fn cols_of(s: u8) -> spec_fn(int) -> bool {
    |c: int| holds_col(s, c as u64)
}

/// The test that never holds.
pub open spec fn never() -> spec_fn(int) -> bool {
    |r: int| false
}

/// A row byte holds as many columns as there are columns that it holds.
proof fn lemma_popcount8(s: u8)
    ensures
        popcount8(s) == count_where(cols_of(s), 8),
        count_where(never(), 8) == 0,
{
    reveal_with_fuel(count_where, 9);
    assert(((s >> 7) & 1 == 0 || (s >> 7) & 1 == 1) && ((s >> 6) & 1 == 0 || (s >> 6) & 1 == 1) && ((s
        >> 5) & 1 == 0 || (s >> 5) & 1 == 1) && ((s >> 4) & 1 == 0 || (s >> 4) & 1 == 1) && ((s >> 3)
        & 1 == 0 || (s >> 3) & 1 == 1) && ((s >> 2) & 1 == 0 || (s >> 2) & 1 == 1) && ((s >> 1) & 1
        == 0 || (s >> 1) & 1 == 1) && (s & 1 == 0 || s & 1 == 1) && (s >> 0) == s) by (bit_vector);
}

impl Board {
    /// The columns of a row choice are empty cells in columns that still want walls.
    proof fn lemma_row_choice(self, counts: Seq<u8>, d: int, s: u8)
        requires
            0 <= d < 8,
            self.row_choice_ok(counts, d, s),
        ensures
            forall|c: int|
                0 <= c < 8 && #[trigger] holds_col(s, c as u64) ==> self.cells[d * 8 + c]
                    == Tile::Empty && counts[c] > 0,
    {
        let empties = pack_row(self.empty_in_row(d));
        let wants = pack_row(wanting(counts));
        lemma_pack_row(self.empty_in_row(d));
        lemma_pack_row(wanting(counts));
        assert forall|c: int| 0 <= c < 8 && #[trigger] holds_col(s, c as u64) implies self.cells[d
            * 8 + c] == Tile::Empty && counts[c] > 0 by {
            lemma_holds_col_ops(s, empties & wants, c as u64);
            lemma_holds_col_ops(empties, wants, c as u64);
        }
    }

    /// What the search reaches from row `d` on is the wall bitmap of an accepted
    /// board: this board with walls on some of its empty cells from row `d` on,
    /// in each of those rows as many as its clue says, and in each column at
    /// most as many as it still wanted.
    pub proof fn lemma_reached(self, counts: Seq<u8>, d: int, w: u64)
        requires
            self.wf(),
            counts.len() == 8,
            self.completes(counts, d, w),
        ensures
            0 <= d < 8,
            self.with_walls(w).accepted(),
            self.with_walls(w).mask(Tile::Wall) == w,
            forall|i: int| 0 <= i < d * 8 ==> #[trigger] self.with_walls(w).cells[i] == self.cells[i],
            forall|r: int|
                d <= r < 8 ==> #[trigger] count_where(self.walled_in_row(w, r), 8) == self.left[r],
            forall|c: int|
                0 <= c < 8 ==> #[trigger] count_where(self.walled_in_col(w, c, d), 8) <= counts[c],
            forall|c: int|
                0 <= c < 8 && self.cells[56 + c] == Tile::Empty && !holds(w, (56 + c) as u64)
                    ==> #[trigger] count_where(self.walled_in_col(w, c, d), 8) == counts[c],
        decreases 8 - d,
    {
        let s = choose|s: u8| #[trigger]
            self.row_choice_ok(counts, d, s) && if d == 7 {
                self.place_row(d, s).accepted() && w == self.place_row(d, s).mask(Tile::Wall)
            } else {
                self.place_row(d, s).completes(spend(counts, s), d + 1, w)
            };
        let next = self.place_row(d, s);
        let rest = spend(counts, s);
        let f = self.with_walls(w);
        self.lemma_row_choice(counts, d, s);
        lemma_popcount8(s);
        if d == 7 {
            next.lemma_mask_cells(Tile::Wall);
            assert(f.cells =~= next.cells);
            assert(f == next);
        } else {
            next.lemma_reached(rest, d + 1, w);
            let f2 = next.with_walls(w);
            f2.lemma_mask_cells(Tile::Wall);
            assert(f.cells =~= f2.cells);
            assert(f == f2);
        }
        f.lemma_mask_cells(Tile::Wall);
        assert forall|i: int| 0 <= i < (d + 1) * 8 implies #[trigger] f.cells[i]
            == next.cells[i] by {
            if d < 7 {
                assert(next.with_walls(w).cells[i] == next.cells[i]);
            }
        }
        assert forall|c: int| 0 <= c < 8 implies (#[trigger] self.walled_in_row(w, d)(c)
            <==> cols_of(s)(c)) by {
            let i = d * 8 + c;
            assert(f.cells[i] == next.cells[i]);
            assert(holds(w, i as u64) <==> f.cells[i] == Tile::Wall);
        }
        assert forall|r: int| d <= r < 8 implies #[trigger] count_where(
            self.walled_in_row(w, r),
            8,
        ) == self.left[r] by {
            if r == d {
                lemma_count_but_one(self.walled_in_row(w, d), cols_of(s), 8, -1);
            } else {
                assert(count_where(next.walled_in_row(w, r), 8) == next.left[r]);
                lemma_count_but_one(self.walled_in_row(w, r), next.walled_in_row(w, r), 8, -1);
            }
        }
        assert forall|c: int| 0 <= c < 8 implies #[trigger] count_where(
            self.walled_in_col(w, c, d),
            8,
        ) <= counts[c] && (self.cells[56 + c] == Tile::Empty && !holds(w, (56 + c) as u64)
            ==> count_where(self.walled_in_col(w, c, d), 8) == counts[c]) by {
            assert(self.walled_in_col(w, c, d)(d) == self.walled_in_row(w, d)(c));
            if d == 7 {
                lemma_count_but_one(self.walled_in_col(w, c, d), never(), 8, d);
                let cand = self.candidates(counts, d);
                lemma_row_subset(s, cand);
                lemma_pack_row(self.empty_in_row(d));
                lemma_pack_row(wanting(counts));
                lemma_holds_col_ops(
                    pack_row(self.empty_in_row(d)),
                    pack_row(wanting(counts)),
                    c as u64,
                );
            } else {
                assert(count_where(next.walled_in_col(w, c, d + 1), 8) <= rest[c]);
                lemma_count_but_one(
                    self.walled_in_col(w, c, d),
                    next.walled_in_col(w, c, d + 1),
                    8,
                    d,
                );
            }
        }
    }
}

impl Board {
    /// A solution walls empty cells only, and the board with those walls is accepted.
    pub proof fn lemma_solution_accepted(self, w: u64)
        requires
            self.wf(),
            self.is_solution(w),
        ensures
            self.with_walls(w).accepted(),
            self.with_walls(w).mask(Tile::Wall) == w,
            self.unwalled() ==> forall|i: u64| #[trigger] holds(w, i) ==> self.cells[i as int] == Tile::Empty,
    {
        self.lemma_reached(self.top, 0, w);
        self.with_walls(w).lemma_mask_cells(Tile::Wall);
    }

    /// On a board without walls, a solution holds in each row as many cells as
    /// the row's clue says, and in each column at most as many as the column's
    /// clue says: exactly as many where the clues of the columns and those of
    /// the rows have the same sum.
    pub proof fn lemma_solution_clues(self, w: u64)
        requires
            self.wf(),
            self.unwalled(),
            self.is_solution(w),
        ensures
            forall|r: int| 0 <= r < 8 ==> #[trigger] row_bits(w, r) == self.left[r],
            forall|c: int| 0 <= c < 8 ==> #[trigger] col_bits(w, c) <= self.top[c],
            clue_sum(self.top) == clue_sum(self.left) ==> forall|c: int|
                0 <= c < 8 ==> #[trigger] col_bits(w, c) == self.top[c],
    {
        self.lemma_reached(self.top, 0, w);
        self.lemma_solution_accepted(w);
        assert forall|r: int| 0 <= r < 8 implies #[trigger] row_bits(w, r) == self.left[r] by {
            assert(count_where(self.walled_in_row(w, r), 8) == self.left[r]);
            lemma_count_but_one(self.walled_in_row(w, r), row_cells(w, r), 8, -1);
        }
        assert forall|c: int| 0 <= c < 8 implies #[trigger] col_bits(w, c) <= self.top[c] by {
            assert(count_where(self.walled_in_col(w, c, 0), 8) <= self.top[c]);
            lemma_count_but_one(self.walled_in_col(w, c, 0), col_cells(w, c), 8, -1);
        }
        lemma_rows_and_cols(w);
    }

    /// In a solution, every monster has exactly one empty cell next to it.
    pub proof fn lemma_solution_monsters(self, w: u64, i: int)
        requires
            self.wf(),
            self.is_solution(w),
            0 <= i < 64,
            self.cells[i] == Tile::Monster,
        ensures
            self.with_walls(w).cells[i] == Tile::Monster,
            self.with_walls(w).empty_neighbors(i) == 1,
    {
        self.lemma_solution_accepted(w);
        assert(self.with_walls(w).cells[i] == Tile::Monster);
    }

    /// In a solution, a flood from any open cell reaches every open cell: a set
    /// of cells that holds the open cell `a`, and every open cell next to one
    /// of its own, holds every open cell `b`.
    pub proof fn lemma_solution_connected(self, w: u64, s: Set<int>, a: int, b: int)
        requires
            self.wf(),
            self.is_solution(w),
            self.with_walls(w).open_at(a),
            self.with_walls(w).open_at(b),
            s.contains(a),
            self.with_walls(w).closed_under_steps(s),
        ensures
            s.contains(b),
    {
        self.lemma_solution_accepted(w);
    }

    /// Two searches of one board find the same solutions in the same order.
    pub proof fn lemma_same_solutions(self, first: Seq<u64>, second: Seq<u64>)
        requires
            ascending(first),
            ascending(second),
            forall|w: u64| #[trigger] first.contains(w) <==> self.is_solution(w),
            forall|w: u64| #[trigger] second.contains(w) <==> self.is_solution(w),
        ensures
            first == second,
    {
        assert forall|w: u64| first.contains(w) <==> second.contains(w) by {
            assert(first.contains(w) <==> self.is_solution(w));
            assert(second.contains(w) <==> self.is_solution(w));
        }
        lemma_ascending_same(first, second);
    }
}

/// Whether each value of `v` is smaller than those behind it.
pub open spec fn ascending(v: Seq<u64>) -> bool {
    forall|i: int, j: int| 0 <= i < j < v.len() ==> #[trigger] v[i] < #[trigger] v[j]
}

/// Two ascending sequences of the same values are equal.
pub proof fn lemma_ascending_same(a: Seq<u64>, b: Seq<u64>)
    requires
        ascending(a),
        ascending(b),
        forall|w: u64| a.contains(w) <==> b.contains(w),
    ensures
        a == b,
    decreases a.len(),
{
    if a.len() == 0 {
        if b.len() > 0 {
            assert(b.contains(b[0]));
            assert(a.contains(b[0]));
        }
        assert(a =~= b);
    } else {
        let x = a.last();
        assert(a.contains(x));
        assert(b.contains(x));
        let y = b.last();
        assert(b.contains(y));
        assert(a.contains(y));
        let i = choose|i: int| 0 <= i < a.len() && a[i] == y;
        let j = choose|j: int| 0 <= j < b.len() && b[j] == x;
        assert(x == y);
        let a0 = a.drop_last();
        let b0 = b.drop_last();
        assert forall|w: u64| a0.contains(w) <==> b0.contains(w) by {
            if a0.contains(w) {
                let k = choose|k: int| 0 <= k < a0.len() && a0[k] == w;
                assert(a[k] == w && a[k] < x);
                assert(a.contains(w));
                let m = choose|m: int| 0 <= m < b.len() && b[m] == w;
                assert(b0[m] == w);
            }
            if b0.contains(w) {
                let k = choose|k: int| 0 <= k < b0.len() && b0[k] == w;
                assert(b[k] == w && b[k] < y);
                assert(b.contains(w));
                let m = choose|m: int| 0 <= m < a.len() && a[m] == w;
                assert(a0[m] == w);
            }
        }
        lemma_ascending_same(a0, b0);
        assert(a =~= a0.push(x));
        assert(b =~= b0.push(y));
    }
}

impl Board {
    /// What the search reaches by walling the columns of `s` in row `d` has, in
    /// the rows down to `d`, the walls of this board and those of `s`.
    pub proof fn lemma_branch_prefix(self, counts: Seq<u8>, d: int, s: u8, w: u64)
        requires
            self.wf(),
            counts.len() == 8,
            self.branch(counts, d, s, w),
        ensures
            w >> ((56 - 8 * d) as u64) == (self.mask(Tile::Wall) >> ((56 - 8 * d) as u64)) | (
            s as u64),
            (self.mask(Tile::Wall) >> ((56 - 8 * d) as u64)) & (s as u64) == 0,
    {
        let sh = (56 - 8 * d) as u64;
        let walls = self.mask(Tile::Wall);
        let next = self.place_row(d, s);
        self.lemma_row_choice(counts, d, s);
        self.lemma_mask_cells(Tile::Wall);
        if d == 7 {
            next.lemma_mask_cells(Tile::Wall);
        } else {
            next.lemma_reached(spend(counts, s), d + 1, w);
            next.with_walls(w).lemma_mask_cells(Tile::Wall);
        }
        assert forall|i: u64| i < (d + 1) * 8 implies (holds(w, i) <==> next.cells[i as int]
            == Tile::Wall) by {
            if d < 7 {
                assert(next.with_walls(w).cells[i as int] == next.cells[i as int]);
            }
        }
        let low = w >> sh;
        let both = (walls >> sh) | (s as u64);
        assert forall|i: u64| i < 64 implies holds(low, i) == holds(both, i) by {
            lemma_shifted_cells(w, s, sh, i);
            lemma_shifted_cells(walls, s, sh, i);
            lemma_has_ops(walls >> sh, s as u64, i);
            if i >= sh {
                let cell = (i - sh) as u64;
                assert(holds(w, cell) <==> next.cells[cell as int] == Tile::Wall);
                assert(holds(walls, cell) <==> self.cells[cell as int] == Tile::Wall);
            }
        }
        lemma_same_cells(low, both);
        let shared = (walls >> sh) & (s as u64);
        if shared != 0 {
            lemma_nonzero_has(shared);
            let i = choose|i: u64| holds(shared, i);
            lemma_has_ops(walls >> sh, s as u64, i);
            lemma_shifted_cells(walls, s, sh, i);
            let cell = (i - sh) as u64;
            assert(holds(walls, cell) <==> self.cells[cell as int] == Tile::Wall);
            assert(holds_col(s, (i - 56) as u64));
            assert(self.cells[d * 8 + (i - 56)] == Tile::Empty);
            assert(false);
        }
    }

    /// What the search reaches at a number `k`, and not at a number below it, is
    /// larger than what it reaches at a number below `k`.
    pub proof fn lemma_later_is_larger(self, counts: Seq<u8>, d: int, cand: u8, k: int, x: u64, w: u64)
        requires
            self.wf(),
            counts.len() == 8,
            0 <= k < 256,
            cand == self.candidates(counts, d),
            self.found_below(counts, d, cand, k, x),
            self.branch(counts, d, pick(k, cand), w),
            !self.found_below(counts, d, cand, k, w),
        ensures
            x < w,
    {
        let s = pick(k, cand);
        let j = choose|j: int| 0 <= j < k && self.branch(counts, d, #[trigger] pick(j, cand), x);
        let earlier = pick(j, cand);
        lemma_part(k as u8, cand);
        lemma_part(j as u8, cand);
        if s < k {
            assert(pick(s as int, cand) == s);
            assert(self.branch(counts, d, pick(s as int, cand), w));
            assert(false);
        }
        self.lemma_branch_prefix(counts, d, earlier, x);
        self.lemma_branch_prefix(counts, d, s, w);
        let sh = (56 - 8 * d) as u64;
        lemma_order(x, w, self.mask(Tile::Wall) >> sh, earlier, s, sh);
    }
}

impl Board {
    /// Whether the walls `w` stand on empty cells only, are as many in each row
    /// as its clue says and at most as many in each column as its clue says,
    /// and leave an empty cell of the last row open only where the clue of its
    /// column is met.
    pub open spec fn meets_clues(self, w: u64) -> bool {
        &&& forall|i: u64| #[trigger] holds(w, i) ==> self.cells[i as int] == Tile::Empty
        &&& forall|r: int| 0 <= r < 8 ==> #[trigger] row_bits(w, r) == self.left[r]
        &&& forall|c: int| 0 <= c < 8 ==> #[trigger] col_bits(w, c) <= self.top[c]
        &&& forall|c: int|
            0 <= c < 8 && self.cells[56 + c] == Tile::Empty && !holds(w, (56 + c) as u64)
                ==> #[trigger] col_bits(w, c) == self.top[c]
    }

    /// The search reaches, from row `d` on, every wall bitmap that adds to the
    /// walls of this board, in the rows from `d` on, walls as the clues ask
    /// and as the columns still want, and so gives an accepted board.
    proof fn lemma_completes_from(self, counts: Seq<u8>, d: int, w: u64)
        requires
            self.wf(),
            counts.len() == 8,
            0 <= d < 8,
            forall|i: int| 0 <= i < 64 && #[trigger] self.cells[i] == Tile::Wall ==> holds(w, i as u64),
            forall|i: u64|
                #[trigger] holds(w, i) ==> self.cells[i as int] == Tile::Empty || self.cells[i as int]
                    == Tile::Wall,
            forall|i: u64| i < d * 8 && #[trigger] holds(w, i) ==> self.cells[i as int] == Tile::Wall,
            forall|r: int|
                d <= r < 8 ==> #[trigger] count_where(self.walled_in_row(w, r), 8) == self.left[r],
            forall|c: int|
                0 <= c < 8 ==> #[trigger] count_where(self.walled_in_col(w, c, d), 8) <= counts[c],
            forall|c: int|
                0 <= c < 8 && self.cells[56 + c] == Tile::Empty && !holds(w, (56 + c) as u64)
                    ==> #[trigger] count_where(self.walled_in_col(w, c, d), 8) == counts[c],
            self.with_walls(w).accepted(),
        ensures
            self.completes(counts, d, w),
        decreases 8 - d,
    {
        let s = pack_row(self.walled_in_row(w, d));
        let empties = pack_row(self.empty_in_row(d));
        let wants = pack_row(wanting(counts));
        let cand = self.candidates(counts, d);
        let next = self.place_row(d, s);
        let rest = spend(counts, s);
        lemma_pack_row(self.walled_in_row(w, d));
        lemma_pack_row(self.empty_in_row(d));
        lemma_pack_row(wanting(counts));
        lemma_popcount8(s);
        lemma_count_but_one(cols_of(s), self.walled_in_row(w, d), 8, -1);
        assert(count_where(self.walled_in_row(w, d), 8) == self.left[d]);
        // how the walls of a column split into those of row `d` and those below
        assert forall|c: int| 0 <= c < 8 implies count_where(self.walled_in_col(w, c, d), 8) == (
        if holds_col(s, c as u64) {
            1int
        } else {
            0int
        }) + count_where(next.walled_in_col(w, c, d + 1), 8) by {
            assert(self.walled_in_col(w, c, d)(d) == self.walled_in_row(w, d)(c));
            lemma_count_but_one(
                self.walled_in_col(w, c, d),
                next.walled_in_col(w, c, d + 1),
                8,
                d,
            );
        }
        assert forall|c: u64| c < 8 implies (holds_col(s, c) ==> holds_col(cand, c)) && (d == 7
            && holds_col(cand, c) ==> holds_col(s, c)) by {
            lemma_holds_col_ops(empties, wants, c);
            assert(count_where(self.walled_in_col(w, c as int, d), 8) <= counts[c as int]);
            if d == 7 && holds_col(cand, c) && !holds_col(s, c) {
                lemma_count_but_one(next.walled_in_col(w, c as int, d + 1), never(), 8, -1);
                assert(self.cells[56 + c] == Tile::Empty);
                assert(!holds(w, (56 + c) as u64));
            }
        }
        lemma_row_within(s, cand);
        if d == 7 {
            lemma_row_within(cand, s);
        }
        assert(self.row_choice_ok(counts, d, s));
        let f = self.with_walls(w);
        if d == 7 {
            assert(next.cells =~= f.cells);
            assert(next == f);
            next.lemma_mask_cells(Tile::Wall);
            assert forall|i: u64| i < 64 implies holds(w, i) == holds(next.mask(Tile::Wall), i) by {
                assert(holds(next.mask(Tile::Wall), i) <==> next.cells[i as int] == Tile::Wall);
            }
            lemma_same_cells(w, next.mask(Tile::Wall));
        } else {
            assert(next.with_walls(w).cells =~= f.cells);
            assert(next.with_walls(w) == f);
            assert forall|r: int| d + 1 <= r < 8 implies #[trigger] count_where(
                next.walled_in_row(w, r),
                8,
            ) == next.left[r] by {
                assert(count_where(self.walled_in_row(w, r), 8) == self.left[r]);
                lemma_count_but_one(self.walled_in_row(w, r), next.walled_in_row(w, r), 8, -1);
            }
            assert forall|c: int| 0 <= c < 8 implies #[trigger] count_where(
                next.walled_in_col(w, c, d + 1),
                8,
            ) <= rest[c] && (next.cells[56 + c] == Tile::Empty && !holds(w, (56 + c) as u64)
                ==> count_where(next.walled_in_col(w, c, d + 1), 8) == rest[c]) by {
                assert(count_where(self.walled_in_col(w, c, d), 8) <= counts[c]);
                assert(next.cells[56 + c] == self.cells[56 + c]);
            }
            next.lemma_completes_from(rest, d + 1, w);
        }
    }

    /// On a board without walls, the solutions are the wall bitmaps that meet
    /// the clues and give an accepted board.
    pub proof fn lemma_solutions(self, w: u64)
        requires
            self.wf(),
            self.unwalled(),
        ensures
            self.is_solution(w) <==> self.meets_clues(w) && self.with_walls(w).accepted(),
    {
        if self.is_solution(w) {
            self.lemma_reached(self.top, 0, w);
            self.lemma_solution_accepted(w);
            self.lemma_solution_clues(w);
            assert forall|c: int|
                0 <= c < 8 && self.cells[56 + c] == Tile::Empty && !holds(
                    w,
                    (56 + c) as u64,
                ) implies #[trigger] col_bits(w, c) == self.top[c] by {
                lemma_count_but_one(self.walled_in_col(w, c, 0), col_cells(w, c), 8, -1);
            }
        }
        if self.meets_clues(w) && self.with_walls(w).accepted() {
            assert forall|r: int| 0 <= r < 8 implies #[trigger] count_where(
                self.walled_in_row(w, r),
                8,
            ) == self.left[r] by {
                assert(row_bits(w, r) == self.left[r]);
                lemma_count_but_one(self.walled_in_row(w, r), row_cells(w, r), 8, -1);
            }
            assert forall|c: int| 0 <= c < 8 implies #[trigger] count_where(
                self.walled_in_col(w, c, 0),
                8,
            ) <= self.top[c] && (self.cells[56 + c] == Tile::Empty && !holds(w, (56 + c) as u64)
                ==> count_where(self.walled_in_col(w, c, 0), 8) == self.top[c]) by {
                assert(col_bits(w, c) <= self.top[c]);
                lemma_count_but_one(self.walled_in_col(w, c, 0), col_cells(w, c), 8, -1);
            }
            self.lemma_completes_from(self.top, 0, w);
        }
    }
}

/// One where `w` holds the cell of row `r` and column `c`, else zero.
pub open spec fn bit_at(w: u64, r: int, c: int) -> nat {
    if holds(w, (r * 8 + c) as u64) {
        1
    } else {
        0
    }
}

/// A row or a column holds the sum of its eight cells.
proof fn lemma_line_sum(w: u64, k: int)
    ensures
        row_bits(w, k) == bit_at(w, k, 0) + bit_at(w, k, 1) + bit_at(w, k, 2) + bit_at(w, k, 3)
            + bit_at(w, k, 4) + bit_at(w, k, 5) + bit_at(w, k, 6) + bit_at(w, k, 7),
        col_bits(w, k) == bit_at(w, 0, k) + bit_at(w, 1, k) + bit_at(w, 2, k) + bit_at(w, 3, k)
            + bit_at(w, 4, k) + bit_at(w, 5, k) + bit_at(w, 6, k) + bit_at(w, 7, k),
{
    reveal_with_fuel(count_where, 9);
}

/// The rows of a bitmap hold, together, as many cells as its columns.
proof fn lemma_rows_and_cols(w: u64)
    ensures
        row_bits(w, 0) + row_bits(w, 1) + row_bits(w, 2) + row_bits(w, 3) + row_bits(w, 4)
            + row_bits(w, 5) + row_bits(w, 6) + row_bits(w, 7) == col_bits(w, 0) + col_bits(w, 1)
            + col_bits(w, 2) + col_bits(w, 3) + col_bits(w, 4) + col_bits(w, 5) + col_bits(w, 6)
            + col_bits(w, 7),
{
    lemma_line_sum(w, 0);
    lemma_line_sum(w, 1);
    lemma_line_sum(w, 2);
    lemma_line_sum(w, 3);
    lemma_line_sum(w, 4);
    lemma_line_sum(w, 5);
    lemma_line_sum(w, 6);
    lemma_line_sum(w, 7);
}

} // verus!
