//! Bitboards: a 64-bit word holds one flag for each cell of the 8x8 grid.
//! Cells are numbered row by row, `row * 8 + col`, and cell `i` is bit `63 - i`.
use vstd::prelude::*;

verus! {

/// The columns that a shift by one towards the most significant bit may land in.
pub const NOT_LAST_COL: u64 = 0xfefe_fefe_fefe_fefe;

/// The columns that a shift by one towards the least significant bit may land in.
pub const NOT_FIRST_COL: u64 = 0x7f7f_7f7f_7f7f_7f7f;

/// Whether the board `m` holds cell `i`.
pub open spec fn holds(m: u64, i: u64) -> bool {
    i < 64 && (m >> ((63 - i) as u64)) & 1 == 1
}

/// Whether the row byte `s` holds column `c`; column 0 is the top bit.
pub open spec fn holds_col(s: u8, c: u64) -> bool {
    c < 8 && (s >> ((7 - c) as u8)) & 1 == 1
}

/// The number of cells below `n` that `m` holds.
pub open spec fn count_below(m: u64, n: nat) -> nat
    decreases n,
{
    if n == 0 {
        0
    } else {
        count_below(m, (n - 1) as nat) + if holds(m, (n - 1) as u64) { 1nat } else { 0nat }
    }
}

/// The number of cells that `m` holds.
pub open spec fn popcount(m: u64) -> nat {
    count_below(m, 64)
}

/// The number of columns that the row byte `s` holds.
pub open spec fn popcount8(s: u8) -> nat {
    ((s >> 7) & 1) as nat + ((s >> 6) & 1) as nat + ((s >> 5) & 1) as nat + ((s >> 4) & 1) as nat
        + ((s >> 3) & 1) as nat + ((s >> 2) & 1) as nat + ((s >> 1) & 1) as nat + (s & 1) as nat
}

/// Counts the cells that `m` holds.
pub fn count_ones(m: u64) -> (n: u32)
    ensures
        n == popcount(m),
        n <= 64,
{
    let mut n: u32 = 0;
    let mut i: u64 = 0;
    while i < 64
        invariant
            i <= 64,
            n == count_below(m, i as nat),
            n <= i,
        decreases 64 - i,
    {
        if (m >> (63 - i)) & 1 == 1 {
            n = n + 1;
        }
        i = i + 1;
    }
    n
}

/// Counts the columns that the row byte `s` holds.
pub fn count_ones8(s: u8) -> (n: u8)
    ensures
        n == popcount8(s),
        n <= 8,
{
    assert((s >> 7) & 1 <= 1 && (s >> 6) & 1 <= 1 && (s >> 5) & 1 <= 1 && (s >> 4) & 1 <= 1 && (s
        >> 3) & 1 <= 1 && (s >> 2) & 1 <= 1 && (s >> 1) & 1 <= 1 && s & 1 <= 1) by (bit_vector);
    let n: u8 = ((s >> 7) & 1) + ((s >> 6) & 1) + ((s >> 5) & 1) + ((s >> 4) & 1) + ((s >> 3) & 1)
        + ((s >> 2) & 1) + ((s >> 1) & 1) + (s & 1);
    n
}

/// A board that holds a cell is not zero.
pub proof fn lemma_has_nonzero(m: u64, i: u64)
    by (bit_vector)
    requires
        holds(m, i),
    ensures
        m != 0,
{
}

/// A board with a bit set at position `p` or above holds a cell.
proof fn lemma_find_bit(m: u64, p: u64)
    requires
        p < 64,
        m >> p != 0,
    ensures
        exists|i: u64| holds(m, i),
    decreases 64 - p,
{
    if (m >> p) & 1 == 1 {
        let i = (63 - p) as u64;
        assert((63 - i) as u64 == p);
        assert(holds(m, i));
    } else {
        let q = (p + 1) as u64;
        assert(p < 63 && m >> q != 0) by (bit_vector)
            requires
                p < 64,
                m >> p != 0,
                (m >> p) & 1 != 1,
                q == p + 1,
        ;
        lemma_find_bit(m, q);
    }
}

/// A board that is not zero holds a cell.
pub proof fn lemma_nonzero_has(m: u64)
    requires
        m != 0,
    ensures
        exists|i: u64| holds(m, i),
{
    assert(m >> 0 == m) by (bit_vector);
    lemma_find_bit(m, 0);
}

/// What `&`, `|`, `^` and `!` do to a single cell.
pub proof fn lemma_has_ops(a: u64, b: u64, i: u64)
    by (bit_vector)
    requires
        i < 64,
    ensures
        holds(a & b, i) == (holds(a, i) && holds(b, i)),
        holds(a | b, i) == (holds(a, i) || holds(b, i)),
        holds(a ^ b, i) == (holds(a, i) != holds(b, i)),
        holds(!a, i) == !holds(a, i),
{
}

/// Two boards that hold the same cells are equal.
pub proof fn lemma_same_cells(a: u64, b: u64)
    requires
        forall|i: u64| i < 64 ==> holds(a, i) == holds(b, i),
    ensures
        a == b,
{
    if a != b {
        assert(a ^ b != 0) by (bit_vector)
            requires
                a != b,
        ;
        lemma_nonzero_has(a ^ b);
        let i = choose|i: u64| holds(a ^ b, i);
        lemma_has_ops(a, b, i);
    }
}

/// The number of indices below `n` at which `f` holds.
pub open spec fn count_where(f: spec_fn(int) -> bool, n: nat) -> nat
    decreases n,
{
    if n == 0 {
        0
    } else {
        count_where(f, (n - 1) as nat) + if f(n - 1) { 1nat } else { 0nat }
    }
}

/// A board that holds exactly the cells at which `f` holds has as many cells as
/// there are such indices.
pub proof fn lemma_count_matches(m: u64, f: spec_fn(int) -> bool, n: nat)
    requires
        n <= 64,
        forall|i: u64| i < n ==> holds(m, i) == f(i as int),
    ensures
        count_below(m, n) == count_where(f, n),
    decreases n,
{
    if n > 0 {
        lemma_count_matches(m, f, (n - 1) as nat);
        assert(holds(m, (n - 1) as u64) == f((n - 1) as u64 as int));
    }
}

/// Among the first `n` cells, a board within another holds at most as many,
/// and as many only where the two agree on them.
proof fn lemma_subset_count_below(a: u64, b: u64, n: nat)
    requires
        n <= 64,
        a & !b == 0,
    ensures
        count_below(a, n) <= count_below(b, n),
        count_below(a, n) == count_below(b, n) ==> forall|i: u64| i < n ==> holds(a, i) == holds(b, i),
    decreases n,
{
    if n > 0 {
        lemma_subset_count_below(a, b, (n - 1) as nat);
        let i = (n - 1) as u64;
        assert(holds(a, i) ==> holds(b, i)) by (bit_vector)
            requires
                a & !b == 0,
                i < 64,
        ;
    }
}

/// Among the cells of `b` there are at most as many as `b` holds, and as many
/// only where they are all of them.
pub proof fn lemma_subset_count(a: u64, b: u64)
    requires
        a & !b == 0,
    ensures
        popcount(a) <= popcount(b),
        popcount(a) == popcount(b) <==> a == b,
{
    lemma_subset_count_below(a, b, 64);
    if popcount(a) == popcount(b) {
        lemma_same_cells(a, b);
    }
}

/// Two boards with no cell in common hold, together, the sum of their cells.
pub proof fn lemma_disjoint_count(a: u64, b: u64, n: nat)
    requires
        n <= 64,
        a & b == 0,
    ensures
        count_below(a | b, n) == count_below(a, n) + count_below(b, n),
    decreases n,
{
    if n > 0 {
        lemma_disjoint_count(a, b, (n - 1) as nat);
        let i = (n - 1) as u64;
        assert(holds(a | b, i) == (holds(a, i) || holds(b, i)) && !(holds(a, i) && holds(b, i)))
            by (bit_vector)
            requires
                a & b == 0,
                i < 64,
        ;
    }
}

/// The flags `f(0)`, ..., `f(n - 1)` as bits, the first one highest.
pub open spec fn pack(f: spec_fn(int) -> bool, n: nat) -> u64
    decreases n,
{
    if n == 0 {
        0
    } else {
        (pack(f, (n - 1) as nat) << 1) | (if f(n - 1) { 1u64 } else { 0u64 })
    }
}

/// Whether the bit that stands `n - 1 - j` above the lowest is set in `m`.
pub open spec fn nth_of(m: u64, n: nat, j: u64) -> bool {
    (m >> ((n - 1 - j) as u64)) & 1 == 1
}

/// After `n` flags, flag `j` stands `n - 1 - j` bits above the lowest, and no
/// bit from the `n`th on is set.
pub proof fn lemma_pack(f: spec_fn(int) -> bool, n: nat)
    requires
        n <= 64,
    ensures
        forall|j: u64| j < n ==> (#[trigger] nth_of(pack(f, n), n, j) <==> f(j as int)),
        n < 64 ==> pack(f, n) >> (n as u64) == 0,
    decreases n,
{
    if n > 0 {
        lemma_pack(f, (n - 1) as nat);
        let a = pack(f, (n - 1) as nat);
        let b = if f(n - 1) { 1u64 } else { 0u64 };
        let m = pack(f, n);
        assert(m == (a << 1) | b);
        assert forall|j: u64| j < n implies (#[trigger] nth_of(m, n, j) <==> f(j as int)) by {
            assert(nth_of(a, (n - 1) as nat, j) <==> (a >> (((n - 1) - 1 - j) as u64)) & 1 == 1);
            let p = (n - 1 - j) as u64;
            if p == 0 {
                assert((((a << 1) | b) >> 0) & 1 == b) by (bit_vector)
                    requires
                        b <= 1,
                ;
            } else {
                let q = (p - 1) as u64;
                assert((((a << 1) | b) >> p) & 1 == (a >> q) & 1) by (bit_vector)
                    requires
                        b <= 1,
                        1 <= p < 64,
                        q == p - 1,
                ;
                assert(q == ((n - 1) - 1 - j) as u64);
            }
        }
        if n < 64 {
            let q = (n - 1) as u64;
            let k = n as u64;
            assert(((a << 1) | b) >> k == 0) by (bit_vector)
                requires
                    b <= 1,
                    k < 64,
                    q == k - 1,
                    a >> q == 0,
            ;
        }
    } else {
        assert(0u64 >> 0 == 0) by (bit_vector);
    }
}

/// The board of 64 flags holds exactly the cells whose flag is set.
pub proof fn lemma_pack_cells(f: spec_fn(int) -> bool)
    ensures
        forall|i: u64| i < 64 ==> (#[trigger] holds(pack(f, 64), i) <==> f(i as int)),
{
    lemma_pack(f, 64);
    assert forall|i: u64| i < 64 implies (#[trigger] holds(pack(f, 64), i) <==> f(i as int)) by {
        assert(nth_of(pack(f, 64), 64, i) <==> holds(pack(f, 64), i));
    }
}

/// The flags `f(0)`, ..., `f(7)` as a row byte, column 0 highest.
pub open spec fn pack_row(f: spec_fn(int) -> bool) -> u8 {
    pack(f, 8) as u8
}

/// A row byte holds exactly the columns whose flag is set.
pub proof fn lemma_pack_row(f: spec_fn(int) -> bool)
    ensures
        pack(f, 8) < 256,
        forall|c: u64| c < 8 ==> (#[trigger] holds_col(pack_row(f), c) <==> f(c as int)),
{
    lemma_pack(f, 8);
    let x = pack(f, 8);
    assert(x < 256) by (bit_vector)
        requires
            x >> 8 == 0,
    ;
    assert forall|c: u64| c < 8 implies (#[trigger] holds_col(pack_row(f), c) <==> f(
        c as int,
    )) by {
        let k = (7 - c) as u64;
        let k8 = (7 - c) as u8;
        assert(nth_of(x, 8, c) <==> (x >> k) & 1 == 1);
        assert((((x as u8) >> k8) & 1 == 1) == ((x >> k) & 1 == 1)) by (bit_vector)
            requires
                x < 256,
                k < 8,
                k8 == k,
        ;
    }
}

/// What `&` does to a single column of a row byte, and what it means for one
/// row byte to lie within another.
pub proof fn lemma_holds_col_ops(a: u8, b: u8, c: u64)
    by (bit_vector)
    requires
        c < 8,
    ensures
        holds_col(a & b, c) == (holds_col(a, c) && holds_col(b, c)),
        a & !b == 0 && holds_col(a, c) ==> holds_col(b, c),
{
}

/// A row byte within another holds at most as many columns, and is its own
/// part within the other.
pub proof fn lemma_row_subset(a: u8, b: u8)
    by (bit_vector)
    requires
        a & !b == 0,
    ensures
        popcount8(a) <= popcount8(b),
        a & b == a,
        popcount8(a) == popcount8(b) ==> a == b,
{
}

/// A row byte lies within another where each of its columns does, and two row
/// bytes that lie within each other are equal.
pub proof fn lemma_row_within(a: u8, b: u8)
    by (bit_vector)
    ensures
        ((holds_col(a, 0) ==> holds_col(b, 0)) && (holds_col(a, 1) ==> holds_col(b, 1)) && (
        holds_col(a, 2) ==> holds_col(b, 2)) && (holds_col(a, 3) ==> holds_col(b, 3)) && (
        holds_col(a, 4) ==> holds_col(b, 4)) && (holds_col(a, 5) ==> holds_col(b, 5)) && (
        holds_col(a, 6) ==> holds_col(b, 6)) && (holds_col(a, 7) ==> holds_col(b, 7))) ==> a & !b
            == 0,
        a & !b == 0 && b & !a == 0 ==> a == b,
{
}

/// Which cells a board holds once it is shifted down by whole rows, and which
/// cells a row byte holds as a board.
pub proof fn lemma_shifted_cells(w: u64, s: u8, sh: u64, i: u64)
    by (bit_vector)
    requires
        sh <= 56,
        i < 64,
    ensures
        holds(w >> sh, i) == (i >= sh && holds(w, (i - sh) as u64)),
        holds(s as u64, i) == (i >= 56 && holds_col(s, (i - 56) as u64)),
{
}

/// Of two boards that agree above a row, the one with the smaller row byte is
/// the smaller number.
pub proof fn lemma_order(x: u64, w: u64, m: u64, a: u8, b: u8, sh: u64)
    by (bit_vector)
    requires
        sh <= 56,
        x >> sh == m | (a as u64),
        w >> sh == m | (b as u64),
        m & (a as u64) == 0,
        m & (b as u64) == 0,
        a < b,
    ensures
        x < w,
{
}

/// The part of a number within a row byte is at most the number, and is its
/// own part within the byte.
pub proof fn lemma_part(k: u8, cand: u8)
    by (bit_vector)
    ensures
        k & cand <= k,
        (k & cand) & cand == k & cand,
        (k & cand) & !cand == 0,
{
}

} // verus!
