//! Finding a small image within a large one: the place where the sum of the
//! squared errors of all pixels is least.
use vstd::prelude::*;
use vstd::arithmetic::div_mod::lemma_fundamental_div_mod_converse;
use crate::screen::{compare_pixels, pixel_error, square_diff};

verus! {

/// The error of the first `count` pixels of the needle, row by row, against
/// the haystack, with the needle's corner at column `x` and row `y` of it.
/// The haystack is `hw` pixels wide, the needle `nw`.
pub open spec fn window_error(
    hay: Seq<[u8; 4]>,
    hw: int,
    needle: Seq<[u8; 4]>,
    nw: int,
    x: int,
    y: int,
    count: nat,
) -> int
    decreases count,
{
    if count == 0 {
        0
    } else {
        window_error(hay, hw, needle, nw, x, y, (count - 1) as nat) + pixel_error(
            hay[(y + (count - 1) / nw) * hw + x + (count - 1) % nw],
            needle[count - 1],
        )
    }
}

/// The error of the whole needle with its corner at column `x` and row `y`.
pub open spec fn error_at(hay: Seq<[u8; 4]>, hw: int, needle: Seq<[u8; 4]>, nw: int, x: int, y: int) -> int {
    window_error(hay, hw, needle, nw, x, y, needle.len())
}

/// Whether the place `(x, y)` comes before `(bx, by)` where the columns are
/// walked from the left and each column from the top.
pub open spec fn comes_before(x: int, y: int, bx: int, by: int) -> bool {
    x < bx || (x == bx && y < by)
}

/// No error is negative.
proof fn lemma_error_not_negative(
    hay: Seq<[u8; 4]>,
    hw: int,
    needle: Seq<[u8; 4]>,
    nw: int,
    x: int,
    y: int,
    count: nat,
)
    ensures
        window_error(hay, hw, needle, nw, x, y, count) >= 0,
    decreases count,
{
    if count > 0 {
        lemma_error_not_negative(hay, hw, needle, nw, x, y, (count - 1) as nat);
        let h = hay[(y + (count - 1) / nw) * hw + x + (count - 1) % nw];
        let n = needle[count - 1];
        assert(square_diff(h[0], n[0]) >= 0 && square_diff(h[1], n[1]) >= 0 && square_diff(
            h[2],
            n[2],
        ) >= 0) by (nonlinear_arith);
    }
}

/// The error of the whole needle with its corner at column `x` and row `y`.
fn window_sse(
    hay: &[[u8; 4]],
    hw: usize,
    hh: usize,
    needle: &[[u8; 4]],
    nw: usize,
    nh: usize,
    x: usize,
    y: usize,
) -> (sum: u64)
    requires
        hay@.len() == hw * hh,
        needle@.len() == nw * nh,
        x + nw <= hw,
        y + nh <= hh,
        needle@.len() * 195075 < u64::MAX,
    ensures
        sum == error_at(hay@, hw as int, needle@, nw as int, x as int, y as int),
        sum < u64::MAX,
{
    let hay_len: usize = hay.len();
    let needle_len: usize = needle.len();
    let mut sum: u64 = 0;
    let mut k: usize = 0;
    let mut j: usize = 0;
    while j < nh
        invariant
            j <= nh,
            k == j * nw,
            hay_len == hay@.len() == hw * hh,
            needle_len == needle@.len() == nw * nh,
            x + nw <= hw,
            y + nh <= hh,
            needle@.len() * 195075 < u64::MAX,
            sum == window_error(hay@, hw as int, needle@, nw as int, x as int, y as int, k as nat),
            sum <= k * 195075,
        decreases nh - j,
    {
        let mut i: usize = 0;
        while i < nw
            invariant
                i <= nw,
                j < nh,
                k == j * nw + i,
                hay_len == hay@.len() == hw * hh,
                needle_len == needle@.len() == nw * nh,
                x + nw <= hw,
                y + nh <= hh,
                needle@.len() * 195075 < u64::MAX,
                sum == window_error(
                    hay@,
                    hw as int,
                    needle@,
                    nw as int,
                    x as int,
                    y as int,
                    k as nat,
                ),
                sum <= k * 195075,
            decreases nw - i,
        {
            proof {
                lemma_fundamental_div_mod_converse(k as int, nw as int, j as int, i as int);
                assert(j * nw + i < nw * nh && (y + j) * hw + x + i < hw * hh && (y + j) * hw
                    <= hw * hh) by (nonlinear_arith)
                    requires
                        0 <= i < nw,
                        0 <= j < nh,
                        0 <= x,
                        0 <= y,
                        x + nw <= hw,
                        y + nh <= hh,
                ;
            }
            let at = (y + j) * hw + x + i;
            let e = compare_pixels(hay[at], needle[k]);
            sum = sum + e;
            k = k + 1;
            i = i + 1;
        }
        assert(j * nw + nw == (j + 1) * nw) by (nonlinear_arith);
        j = j + 1;
    }
    assert(k == nw * nh) by (nonlinear_arith)
        requires
            k == j * nw,
            j == nh,
    ;
    sum
}

/// Slides the needle over the haystack, column by column and each column from
/// the top, and returns the least error and the first place where it is met.
/// The last column and the last row at which the needle would still fit are
/// left out. Where no place is left, the result is `u64::MAX` at `(0, 0)`.
pub fn compare_images(
    hay: &[[u8; 4]],
    hw: usize,
    hh: usize,
    needle: &[[u8; 4]],
    nw: usize,
    nh: usize,
) -> (best: (u64, (u32, u32)))
    requires
        hay@.len() == hw * hh,
        needle@.len() == nw * nh,
        nw <= hw <= u32::MAX,
        nh <= hh <= u32::MAX,
        needle@.len() * 195075 < u64::MAX,
    ensures
        hw == nw || hh == nh ==> best == (u64::MAX, (0u32, 0u32)),
        hw > nw && hh > nh ==> {
            &&& best.1.0 < hw - nw
            &&& best.1.1 < hh - nh
            &&& best.0 == error_at(
                hay@,
                hw as int,
                needle@,
                nw as int,
                best.1.0 as int,
                best.1.1 as int,
            )
            &&& forall|x: int, y: int|
                0 <= x < hw - nw && 0 <= y < hh - nh ==> best.0 <= #[trigger] error_at(
                    hay@,
                    hw as int,
                    needle@,
                    nw as int,
                    x,
                    y,
                )
            &&& forall|x: int, y: int|
                0 <= x < hw - nw && 0 <= y < hh - nh && comes_before(
                    x,
                    y,
                    best.1.0 as int,
                    best.1.1 as int,
                ) ==> best.0 < #[trigger] error_at(hay@, hw as int, needle@, nw as int, x, y)
        },
{
    let xs: usize = hw - nw;
    let ys: usize = hh - nh;
    let mut best_score: u64 = u64::MAX;
    let mut best_pos: (u32, u32) = (0, 0);
    let mut x: usize = 0;
    while x < xs
        invariant
            x <= xs,
            xs == hw - nw,
            ys == hh - nh,
            hay@.len() == hw * hh,
            needle@.len() == nw * nh,
            nw <= hw <= u32::MAX,
            nh <= hh <= u32::MAX,
            needle@.len() * 195075 < u64::MAX,
            x == 0 || ys == 0 ==> best_score == u64::MAX && best_pos == (0u32, 0u32),
            x > 0 && ys > 0 ==> {
                &&& best_pos.0 < x
                &&& best_pos.1 < ys
                &&& 0 < best_score < u64::MAX
                &&& best_score == error_at(
                    hay@,
                    hw as int,
                    needle@,
                    nw as int,
                    best_pos.0 as int,
                    best_pos.1 as int,
                )
                &&& forall|a: int, b: int|
                    0 <= a < x && 0 <= b < ys ==> best_score <= #[trigger] error_at(
                        hay@,
                        hw as int,
                        needle@,
                        nw as int,
                        a,
                        b,
                    )
                &&& forall|a: int, b: int|
                    0 <= a < xs && 0 <= b < ys && comes_before(
                        a,
                        b,
                        best_pos.0 as int,
                        best_pos.1 as int,
                    ) ==> best_score < #[trigger] error_at(hay@, hw as int, needle@, nw as int, a, b)
            },
        decreases xs - x,
    {
        let mut y: usize = 0;
        while y < ys
            invariant
                y <= ys,
                x < xs,
                xs == hw - nw,
                ys == hh - nh,
                hay@.len() == hw * hh,
                needle@.len() == nw * nh,
                nw <= hw <= u32::MAX,
                nh <= hh <= u32::MAX,
                needle@.len() * 195075 < u64::MAX,
                (x == 0 && y == 0) || ys == 0 ==> best_score == u64::MAX && best_pos == (0u32, 0u32),
                (x > 0 || y > 0) && ys > 0 ==> {
                    &&& comes_before(best_pos.0 as int, best_pos.1 as int, x as int, y as int)
                    &&& best_pos.1 < ys
                    &&& 0 < best_score < u64::MAX
                    &&& best_score == error_at(
                        hay@,
                        hw as int,
                        needle@,
                        nw as int,
                        best_pos.0 as int,
                        best_pos.1 as int,
                    )
                    &&& forall|a: int, b: int|
                        0 <= a <= x && 0 <= b < ys && comes_before(a, b, x as int, y as int)
                            ==> best_score <= #[trigger] error_at(
                            hay@,
                            hw as int,
                            needle@,
                            nw as int,
                            a,
                            b,
                        )
                    &&& forall|a: int, b: int|
                        0 <= a < xs && 0 <= b < ys && comes_before(
                            a,
                            b,
                            best_pos.0 as int,
                            best_pos.1 as int,
                        ) ==> best_score < #[trigger] error_at(
                            hay@,
                            hw as int,
                            needle@,
                            nw as int,
                            a,
                            b,
                        )
                },
            decreases ys - y,
        {
            let sse = window_sse(hay, hw, hh, needle, nw, nh, x, y);
            if sse < best_score {
                if sse == 0 {
                    proof {
                        assert forall|a: int, b: int|
                            0 <= a < xs && 0 <= b < ys implies 0 <= #[trigger] error_at(
                            hay@,
                            hw as int,
                            needle@,
                            nw as int,
                            a,
                            b,
                        ) by {
                            lemma_error_not_negative(
                                hay@,
                                hw as int,
                                needle@,
                                nw as int,
                                a,
                                b,
                                needle@.len(),
                            );
                        }
                    }
                    return (sse, (x as u32, y as u32));
                }
                best_score = sse;
                best_pos = (x as u32, y as u32);
            }
            y = y + 1;
        }
        x = x + 1;
    }
    (best_score, best_pos)
}

} // verus!
