//! The search: rows are walled from the top down, each row with as many walls
//! as its clue says, on empty cells of columns that still want walls; complete
//! boards go to the oracle.
use vstd::prelude::*;
use crate::bits::{
    count_ones8, holds_col, lemma_holds_col_ops, lemma_pack_row, lemma_row_subset, pack, pack_row,
    popcount8,
};
use crate::oracle::is_valid_solution;
use crate::puzzle::{Board, Puzzle, Tile};
use crate::solution::ascending;

verus! {

/// The test whether a column still wants walls.
pub open spec fn wanting(counts: Seq<u8>) -> spec_fn(int) -> bool {
    |c: int| counts[c] > 0
}

/// The wall counts that are left once a wall went to each column of `s`.
pub open spec fn spend(counts: Seq<u8>, s: u8) -> Seq<u8> {
    Seq::new(
        8,
        |c: int|
            if holds_col(s, c as u64) {
                (counts[c] - 1) as u8
            } else {
                counts[c]
            },
    )
}

/// The part of the number `j` that lies within `cand`.
pub open spec fn pick(j: int, cand: u8) -> u8 {
    (j as u8) & cand
}

impl Board {
    /// The test whether a cell of row `d` is empty.
    pub open spec fn empty_in_row(self, d: int) -> spec_fn(int) -> bool {
        |c: int| self.cells[d * 8 + c] == Tile::Empty
    }

    /// The columns of row `d` that may get a wall: the cell is empty and the
    /// column still wants walls.
    pub open spec fn candidates(self, counts: Seq<u8>, d: int) -> u8 {
        pack_row(self.empty_in_row(d)) & pack_row(wanting(counts))
    }

    /// Whether row `d` may get its walls on the columns of `s`: they are
    /// candidates, they are as many as the row's clue says, and in the last row
    /// no candidate is left over.
    pub open spec fn row_choice_ok(self, counts: Seq<u8>, d: int, s: u8) -> bool {
        let cand = self.candidates(counts, d);
        s & !cand == 0 && popcount8(s) == self.left[d] && (d == 7 ==> popcount8(cand)
            == self.left[d])
    }

    /// Whether the search, at row `d` with `counts` walls left for the columns,
    /// reaches the wall bitmap `w`: some choice of walls for row `d` is in order,
    /// and either this is the last row, the walled board is accepted and `w` is
    /// its wall bitmap, or the search reaches `w` from the next row on.
    pub open spec fn completes(self, counts: Seq<u8>, d: int, w: u64) -> bool
        decreases 8 - d,
    {
        0 <= d < 8 && exists|s: u8| #[trigger]
            self.row_choice_ok(counts, d, s) && if d == 7 {
                self.place_row(d, s).accepted() && w == self.place_row(d, s).mask(Tile::Wall)
            } else {
                self.place_row(d, s).completes(spend(counts, s), d + 1, w)
            }
    }

    /// Whether the search, at row `d` with `counts` walls left for the columns,
    /// reaches the wall bitmap `w` by walling the columns of `s` in that row.
    pub open spec fn branch(self, counts: Seq<u8>, d: int, s: u8, w: u64) -> bool {
        0 <= d < 8 && self.row_choice_ok(counts, d, s) && if d == 7 {
            self.place_row(d, s).accepted() && w == self.place_row(d, s).mask(Tile::Wall)
        } else {
            self.place_row(d, s).completes(spend(counts, s), d + 1, w)
        }
    }

    /// The search reaches `w` exactly when one of its branches does.
    pub proof fn lemma_completes_by_branch(self, counts: Seq<u8>, d: int, w: u64)
        ensures
            self.completes(counts, d, w) <==> exists|s: u8| #[trigger] self.branch(counts, d, s, w),
    {
        if self.completes(counts, d, w) {
            let s = choose|s: u8| #[trigger]
                self.row_choice_ok(counts, d, s) && if d == 7 {
                    self.place_row(d, s).accepted() && w == self.place_row(d, s).mask(Tile::Wall)
                } else {
                    self.place_row(d, s).completes(spend(counts, s), d + 1, w)
                };
            assert(self.branch(counts, d, s, w));
        }
        if exists|s: u8| #[trigger] self.branch(counts, d, s, w) {
            let s = choose|s: u8| #[trigger] self.branch(counts, d, s, w);
            assert(self.row_choice_ok(counts, d, s));
        }
    }

    /// Whether `w` is the wall bitmap of a solution of this board.
    pub open spec fn is_solution(self, w: u64) -> bool {
        self.completes(self.top, 0, w)
    }

    /// Whether one of the numbers below `k`, cut down to `cand`, leads to `w`.
    pub open spec fn found_below(self, counts: Seq<u8>, d: int, cand: u8, k: int, w: u64) -> bool {
        exists|j: int| 0 <= j < k && self.branch(counts, d, #[trigger] pick(j, cand), w)
    }
}

/// The wall bitmap of a board: cell `(row, col)` is bit `63 - (row * 8 + col)`.
pub fn walls_to_solution(puzzle: &Puzzle) -> (w: u64)
    ensures
        w == puzzle@.mask(Tile::Wall),
        forall|i: u64| i < 64 ==> (#[trigger] crate::bits::holds(w, i) <==> puzzle@.cells[i as int] == Tile::Wall),
{
    puzzle.terrain_mask(Tile::Wall)
}

/// The empty cells of row `depth` as a row byte.
fn empty_row_mask(puzzle: &Puzzle, depth: usize) -> (m: u8)
    requires
        depth < 8,
    ensures
        m == pack_row(puzzle@.empty_in_row(depth as int)),
{
    let mut acc: u64 = 0;
    let mut c: usize = 0;
    while c < 8
        invariant
            c <= 8,
            depth < 8,
            acc == pack(puzzle@.empty_in_row(depth as int), c as nat),
        decreases 8 - c,
    {
        let bit: u64 = if puzzle.tiles[depth][c] == Tile::Empty { 1 } else { 0 };
        assert(puzzle@.cells[depth * 8 + c] == puzzle.tiles[depth as int][c as int]);
        acc = (acc << 1) | bit;
        c = c + 1;
    }
    proof {
        lemma_pack_row(puzzle@.empty_in_row(depth as int));
    }
    acc as u8
}

/// The columns that still want walls as a row byte.
fn wanting_mask(col_counts: &[u8; 8]) -> (m: u8)
    ensures
        m == pack_row(wanting(col_counts@)),
{
    let mut acc: u64 = 0;
    let mut c: usize = 0;
    while c < 8
        invariant
            c <= 8,
            acc == pack(wanting(col_counts@), c as nat),
        decreases 8 - c,
    {
        let bit: u64 = if col_counts[c] > 0 { 1 } else { 0 };
        acc = (acc << 1) | bit;
        c = c + 1;
    }
    proof {
        lemma_pack_row(wanting(col_counts@));
    }
    acc as u8
}

/// The wall counts that are left once a wall went to each column of `s`.
fn spend_counts(col_counts: [u8; 8], s: u8) -> (left: [u8; 8])
    requires
        forall|c: u64| c < 8 && #[trigger] holds_col(s, c) ==> col_counts[c as int] > 0,
    ensures
        left@ == spend(col_counts@, s),
{
    let mut counts = col_counts;
    let mut i: usize = 0;
    while i < 8
        invariant
            i <= 8,
            forall|c: u64| c < 8 && #[trigger] holds_col(s, c) ==> col_counts[c as int] > 0,
            forall|c: int|
                0 <= c < 8 ==> counts[c] == (if c < i && holds_col(s, c as u64) {
                    (col_counts[c] - 1) as u8
                } else {
                    col_counts[c]
                }),
        decreases 8 - i,
    {
        let sh: u8 = (7 - i) as u8;
        assert(((s >> sh) & 1 == 1) == ((s & (1u8 << sh)) >= 1)) by (bit_vector)
            requires
                sh < 8,
        ;
        assert(holds_col(s, i as u64) == ((s >> sh) & 1 == 1));
        if (s & (1u8 << sh)) >= 1 {
            counts[i] = counts[i] - 1;
        }
        i = i + 1;
    }
    proof {
        assert(counts@ =~= spend(col_counts@, s));
    }
    counts
}

/// Whether `x` is among `v`.
fn contains(v: &Vec<u64>, x: u64) -> (found: bool)
    ensures
        found == v@.contains(x),
{
    let mut i: usize = 0;
    while i < v.len()
        invariant
            i <= v.len(),
            forall|j: int| 0 <= j < i ==> v@[j] != x,
        decreases v.len() - i,
    {
        if v[i] == x {
            return true;
        }
        i = i + 1;
    }
    false
}

/// What a sequence holds once one more value is at its end.
proof fn lemma_push(v: Seq<u64>, x: u64)
    ensures
        forall|w: u64| v.push(x).contains(w) <==> v.contains(w) || w == x,
        v.no_duplicates() && !v.contains(x) ==> v.push(x).no_duplicates(),
        v.push(x).subrange(0, v.len() as int) == v,
{
    let p = v.push(x);
    assert forall|w: u64| p.contains(w) <==> v.contains(w) || w == x by {
        if v.contains(w) {
            let i = choose|i: int| 0 <= i < v.len() && v[i] == w;
            assert(p[i] == w);
        }
        if w == x {
            assert(p[v.len() as int] == w);
        }
    }
    assert(p.subrange(0, v.len() as int) =~= v);
}

/// Something that finds the solutions of a puzzle.
pub trait Solver {
    /// The wall bitmaps of all solutions of `puzzle`, each of them once, from
    /// the smallest to the largest. On a puzzle without walls these are the
    /// bitmaps that meet the clues and give an accepted board.
    fn solve(&self, puzzle: &Puzzle) -> (solutions: Vec<u64>)
        ensures
            solutions@.no_duplicates(),
            ascending(solutions@),
            forall|w: u64| #[trigger] solutions@.contains(w) <==> puzzle@.is_solution(w),
            puzzle@.unwalled() ==> forall|w: u64| #[trigger]
                solutions@.contains(w) <==> puzzle@.meets_clues(w) && puzzle@.with_walls(
                    w,
                ).accepted(),
    ;
}

/// A search that takes walls for row after row.
pub struct BackTracker;

impl Solver for BackTracker {
    fn solve(&self, puzzle: &Puzzle) -> (solutions: Vec<u64>) {
        let mut solutions: Vec<u64> = Vec::new();
        BackTracker::solve_recursive(puzzle, puzzle.top_nums, 0, &mut solutions);
        proof {
            if puzzle@.unwalled() {
                assert forall|w: u64| #[trigger]
                    solutions@.contains(w) <==> puzzle@.meets_clues(w) && puzzle@.with_walls(
                        w,
                    ).accepted() by {
                    puzzle@.lemma_solutions(w);
                }
            }
        }
        solutions
    }
}

impl BackTracker {
    /// Searches from row `depth` on: `puzzle` holds the walls of the rows above,
    /// `col_counts` the walls that each column still wants. Every wall bitmap
    /// that the search reaches and `solutions` does not hold yet is put at its
    /// end, the smaller before the larger.
    pub fn solve_recursive(
        puzzle: &Puzzle,
        col_counts: [u8; 8],
        depth: usize,
        solutions: &mut Vec<u64>,
    )
        requires
            depth < 8,
        ensures
            final(solutions)@.len() >= old(solutions)@.len(),
            final(solutions)@.subrange(0, old(solutions)@.len() as int) == old(solutions)@,
            forall|w: u64|
                #![trigger final(solutions)@.contains(w)]
                #![trigger puzzle@.completes(col_counts@, depth as int, w)]
                final(solutions)@.contains(w) <==> old(solutions)@.contains(w) || puzzle@.completes(
                    col_counts@,
                    depth as int,
                    w,
                ),
            old(solutions)@.no_duplicates() ==> final(solutions)@.no_duplicates(),
            forall|i: int|
                old(solutions)@.len() <= i < final(solutions)@.len() ==> !old(solutions)@.contains(
                    #[trigger] final(solutions)@[i],
                ),
            forall|i: int, j: int|
                old(solutions)@.len() <= i < j < final(solutions)@.len()
                    ==> #[trigger] final(solutions)@[i] < #[trigger] final(solutions)@[j],
        decreases 8 - depth,
    {
        let ghost board = puzzle@;
        let ghost d = depth as int;
        let need = puzzle.left_nums[depth];
        let cand = empty_row_mask(puzzle, depth) & wanting_mask(&col_counts);
        let avail = count_ones8(cand);
        let ghost start = solutions@;
        assert(cand == board.candidates(col_counts@, d));
        assert(start.subrange(0, start.len() as int) =~= start);
        if avail < need || (avail > need && depth == 7) {
            proof {
                assert forall|w: u64| !board.completes(col_counts@, d, w) by {
                    board.lemma_completes_by_branch(col_counts@, d, w);
                    assert forall|s: u8| !#[trigger] board.branch(col_counts@, d, s, w) by {
                        if s & !cand == 0 {
                            lemma_row_subset(s, cand);
                        }
                    }
                }
            }
            return ;
        }
        let mut last: Option<u8> = None;
        let ghost mut last_j: int = 0;
        let mut k: u16 = 0;
        while k < 256
            invariant
                k <= 256,
                depth < 8,
                d == depth as int,
                board == puzzle@,
                need == puzzle.left_nums[d],
                cand == board.candidates(col_counts@, d),
                depth == 7 ==> popcount8(cand) == need,
                solutions@.len() >= start.len(),
                solutions@.subrange(0, start.len() as int) == start,
                forall|w: u64|
                    #![trigger solutions@.contains(w)]
                    #![trigger board.found_below(col_counts@, d, cand, k as int, w)]
                    solutions@.contains(w) <==> start.contains(w) || board.found_below(
                        col_counts@,
                        d,
                        cand,
                        k as int,
                        w,
                    ),
                start.no_duplicates() ==> solutions@.no_duplicates(),
                forall|i: int|
                    start.len() <= i < solutions@.len() ==> !start.contains(#[trigger] solutions@[i]),
                forall|i: int, j: int|
                    start.len() <= i < j < solutions@.len() ==> #[trigger] solutions@[i]
                        < #[trigger] solutions@[j],
                last.is_some() ==> 0 <= last_j < k && pick(last_j, cand) == last.unwrap(),
            decreases 256 - k,
        {
            let s: u8 = (k as u8) & cand;
            let fresh = match last {
                Some(x) => x != s,
                None => true,
            };
            let ghost prev = solutions@;
            assert(s == pick(k as int, cand));
            if count_ones8(s) == need && fresh {
                last = Some(s);
                proof {
                    last_j = k as int;
                    assert(s & !cand == 0) by (bit_vector)
                        requires
                            s == (k as u8) & cand,
                    ;
                    lemma_pack_row(wanting(col_counts@));
                    assert forall|c: u64| c < 8 && #[trigger] holds_col(s, c) implies col_counts[c as int]
                        > 0 by {
                        lemma_holds_col_ops(s, cand, c);
                        lemma_holds_col_ops(
                            pack_row(board.empty_in_row(d)),
                            pack_row(wanting(col_counts@)),
                            c,
                        );
                    }
                    assert(board.row_choice_ok(col_counts@, d, s));
                }
                let next = puzzle.apply_walls(depth, s);
                if depth == 7 {
                    if is_valid_solution(&next) {
                        let sol = walls_to_solution(&next);
                        if !contains(solutions, sol) {
                            solutions.push(sol);
                            proof {
                                lemma_push(prev, sol);
                                assert(solutions@.subrange(0, start.len() as int) =~= start);
                                assert(solutions@.subrange(0, prev.len() as int) =~= prev);
                            }
                        }
                        assert forall|w: u64| board.branch(col_counts@, d, s, w) <==> w == sol by {}
                    } else {
                        assert forall|w: u64| !board.branch(col_counts@, d, s, w) by {}
                    }
                } else {
                    let counts = spend_counts(col_counts, s);
                    BackTracker::solve_recursive(&next, counts, depth + 1, solutions);
                    proof {
                        assert(solutions@.subrange(0, start.len() as int) =~= start);
                        assert forall|w: u64|
                            board.branch(col_counts@, d, s, w) <==> next@.completes(
                                counts@,
                                d + 1,
                                w,
                            ) by {}
                    }
                }
            } else {
                assert forall|w: u64| board.branch(col_counts@, d, s, w) implies prev.contains(
                    w,
                ) by {
                    if !fresh {
                        assert(pick(last_j, cand) == s);
                        assert(board.found_below(col_counts@, d, cand, k as int, w));
                    }
                }
            }
            proof {
                let k1 = k as int + 1;
                assert forall|w: u64| solutions@.contains(w) <==> prev.contains(w) || board.branch(
                    col_counts@,
                    d,
                    s,
                    w,
                ) by {}
                assert forall|i: int| 0 <= i < prev.len() implies solutions@[i] == prev[i] by {
                    assert(solutions@.subrange(0, prev.len() as int)[i] == solutions@[i]);
                }
                assert forall|i: int| prev.len() <= i < solutions@.len() implies !prev.contains(
                    #[trigger] solutions@[i],
                ) && !start.contains(solutions@[i]) && board.branch(
                    col_counts@,
                    d,
                    s,
                    solutions@[i],
                ) && !board.found_below(col_counts@, d, cand, k as int, solutions@[i]) by {
                    assert(solutions@.contains(solutions@[i]));
                }
                assert forall|i: int| start.len() <= i < solutions@.len() implies !start.contains(
                    #[trigger] solutions@[i],
                ) by {
                    if i < prev.len() {
                        assert(!start.contains(prev[i]));
                    }
                }
                assert forall|i: int, j: int|
                    start.len() <= i < j < solutions@.len() implies #[trigger] solutions@[i]
                    < #[trigger] solutions@[j] by {
                    if j < prev.len() {
                        assert(prev[i] < prev[j]);
                    } else if i < prev.len() {
                        assert(prev.contains(prev[i]));
                        assert(!start.contains(prev[i]));
                        board.lemma_later_is_larger(
                            col_counts@,
                            d,
                            cand,
                            k as int,
                            solutions@[i],
                            solutions@[j],
                        );
                    }
                }
                assert forall|w: u64|
                    solutions@.contains(w) <==> start.contains(w) || board.found_below(
                        col_counts@,
                        d,
                        cand,
                        k1,
                        w,
                    ) by {
                    if board.found_below(col_counts@, d, cand, k1, w) {
                        let j = choose|j: int|
                            0 <= j < k1 && board.branch(col_counts@, d, #[trigger] pick(j, cand), w);
                        if j < k {
                            assert(board.found_below(col_counts@, d, cand, k as int, w));
                        }
                    }
                    if board.found_below(col_counts@, d, cand, k as int, w) {
                        let j = choose|j: int|
                            0 <= j < k && board.branch(col_counts@, d, #[trigger] pick(j, cand), w);
                        assert(board.found_below(col_counts@, d, cand, k1, w));
                    }
                    if board.branch(col_counts@, d, s, w) {
                        assert(board.found_below(col_counts@, d, cand, k1, w));
                    }
                }
            }
            k = k + 1;
        }
        proof {
            assert forall|w: u64|
                board.found_below(col_counts@, d, cand, 256, w) <==> board.completes(
                    col_counts@,
                    d,
                    w,
                ) by {
                board.lemma_completes_by_branch(col_counts@, d, w);
                if board.found_below(col_counts@, d, cand, 256, w) {
                    let j = choose|j: int|
                        0 <= j < 256 && board.branch(col_counts@, d, #[trigger] pick(j, cand), w);
                    assert(board.branch(col_counts@, d, pick(j, cand), w));
                }
                if board.completes(col_counts@, d, w) {
                    let s = choose|s: u8| #[trigger] board.branch(col_counts@, d, s, w);
                    lemma_row_subset(s, cand);
                    assert(pick(s as int, cand) == s);
                }
            }
        }
    }
}

} // verus!
