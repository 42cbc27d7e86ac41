//! The rules by which a screenshot of the game is read and a solution is
//! entered: which pixel counts stand for which digit, which colour for which
//! tile, and where to click for a cell. Taking the screenshot and clicking is
//! left to the caller.
use vstd::prelude::*;
use crate::bits::{count_where, holds, pack};
use crate::codec::ParseError;
use crate::puzzle::Tile;

verus! {

/// The distance in pixels from one tile to the next.
pub const TILE_STRIDE: u32 = 33;

/// Where the top left tile starts in the screenshot.
pub const TILES_OFFSET: (u32, u32) = (49, 175);

/// The digit that shows `count` pixels of ink in the sampled window, if any does.
pub open spec fn digit_of_count(count: int) -> Option<u8> {
    if count == 4 {
        Some(0u8)
    } else if count == 0 {
        Some(1u8)
    } else if count == 5 {
        Some(2u8)
    } else if count == 2 {
        Some(3u8)
    } else if count == 3 {
        Some(4u8)
    } else if count == 8 {
        Some(5u8)
    } else if count == 6 {
        Some(6u8)
    } else if count == 1 {
        Some(7u8)
    } else {
        None
    }
}

/// The digit that shows `count` pixels of ink in the sampled window.
pub fn count_to_digit(count: usize) -> (res: Result<u8, ParseError>)
    ensures
        res == match digit_of_count(count as int) {
            Some(d) => Ok::<u8, ParseError>(d),
            None => Err::<u8, ParseError>(ParseError::UnknownDigit),
        },
{
    match count {
        4 => Ok(0),
        0 => Ok(1),
        5 => Ok(2),
        2 => Ok(3),
        3 => Ok(4),
        8 => Ok(5),
        6 => Ok(6),
        1 => Ok(7),
        _ => Err(ParseError::UnknownDigit),
    }
}

/// Whether a pixel, as red, green, blue and alpha, has the colour of a clue's ink.
pub open spec fn is_ink(p: [u8; 4]) -> bool {
    p[1] == 91 && 69 <= p[2] <= 78
}

/// The test whether pixel `i` of `pixels` is ink.
pub open spec fn ink_at(pixels: Seq<[u8; 4]>) -> spec_fn(int) -> bool {
    |i: int| is_ink(pixels[i])
}

/// The digit of a clue, from the pixels of its sampled window: the number of
/// ink pixels among them decides.
pub fn digit_from_pixels(pixels: &[[u8; 4]]) -> (res: Result<u8, ParseError>)
    ensures
        res == match digit_of_count(count_where(ink_at(pixels@), pixels@.len()) as int) {
            Some(d) => Ok::<u8, ParseError>(d),
            None => Err::<u8, ParseError>(ParseError::UnknownDigit),
        },
{
    let mut count: usize = 0;
    let mut i: usize = 0;
    while i < pixels.len()
        invariant
            i <= pixels@.len(),
            count == count_where(ink_at(pixels@), i as nat),
            count <= i,
        decreases pixels@.len() - i,
    {
        let p = pixels[i];
        if p[1] == 91 && p[2] >= 69 && p[2] <= 78 {
            count = count + 1;
        }
        i = i + 1;
    }
    count_to_digit(count)
}

/// The colour sampled from a treasure.
pub open spec fn is_treasure_color(p: [u8; 4]) -> bool {
    p[0] == 220 && p[1] == 170 && p[2] == 109 && p[3] == 255
}

/// The tile that shows `sample` where the bare floor would show `background`:
/// floor where they agree, else a treasure by its colour, else a monster.
pub fn classify_tile(sample: [u8; 4], background: [u8; 4]) -> (tile: Tile)
    ensures
        tile == (if sample@ == background@ {
            Tile::Empty
        } else if is_treasure_color(sample) {
            Tile::Treasure
        } else {
            Tile::Monster
        }),
{
    let same = sample[0] == background[0] && sample[1] == background[1] && sample[2]
        == background[2] && sample[3] == background[3];
    proof {
        if same {
            assert(sample@ =~= background@);
        }
    }
    if same {
        Tile::Empty
    } else if sample[0] == 220 && sample[1] == 170 && sample[2] == 109 && sample[3] == 255 {
        Tile::Treasure
    } else {
        Tile::Monster
    }
}

/// The square of the distance between two values.
pub open spec fn square_diff(a: u8, b: u8) -> int {
    (a - b) * (a - b)
}

/// How far the pixel `haystack` is from the pixel `needle`: the sum of the
/// squared differences of red, green and blue. A needle that is not fully
/// opaque matches anything.
pub open spec fn pixel_error(haystack: [u8; 4], needle: [u8; 4]) -> int {
    if needle[3] < 255 {
        0
    } else {
        square_diff(haystack[0], needle[0]) + square_diff(haystack[1], needle[1]) + square_diff(
            haystack[2],
            needle[2],
        )
    }
}

/// How far the pixel `haystack` is from the pixel `needle`.
pub fn compare_pixels(haystack: [u8; 4], needle: [u8; 4]) -> (sum: u64)
    ensures
        sum == pixel_error(haystack, needle),
        sum <= 195075,
{
    if needle[3] < 255 {
        0
    } else {
        let mut sum: u64 = 0;
        let mut i: usize = 0;
        while i < 3
            invariant
                i <= 3,
                sum == (if i >= 1 { square_diff(haystack[0], needle[0]) } else { 0 }) + (if i >= 2 {
                    square_diff(haystack[1], needle[1])
                } else {
                    0
                }) + (if i >= 3 { square_diff(haystack[2], needle[2]) } else { 0 }),
                sum <= i * 65025,
            decreases 3 - i,
        {
            let a = haystack[i];
            let b = needle[i];
            let e: u64 = if a > b { (a - b) as u64 } else { (b - a) as u64 };
            assert(e * e == square_diff(a, b) && e * e <= 65025) by (nonlinear_arith)
                requires
                    e == (if a > b { a - b } else { b - a }),
                    e <= 255,
            ;
            sum = sum + e * e;
            i = i + 1;
        }
        sum
    }
}

/// Where a sprite of the given size, found at `offset` in a screenshot, lies
/// against the tile it stands on: the sprite's centre, less the place of that
/// centre within its tile.
pub fn correct_offset(size: (u32, u32), offset: (u32, u32)) -> (res: (i32, i32))
    requires
        TILES_OFFSET.0 <= offset.0 + size.0 / 2 <= u32::MAX,
        TILES_OFFSET.1 <= offset.1 + size.1 / 2 <= u32::MAX,
    ensures
        res.0 == size.0 / 2 - (offset.0 + size.0 / 2 - 49) % 33,
        res.1 == size.1 / 2 - (offset.1 + size.1 / 2 - 175) % 33,
{
    let center_x = size.0 / 2;
    let center_y = size.1 / 2;
    let offset_x = (offset.0 + center_x - TILES_OFFSET.0) % TILE_STRIDE;
    let offset_y = (offset.1 + center_y - TILES_OFFSET.1) % TILE_STRIDE;
    (center_x as i32 - offset_x as i32, center_y as i32 - offset_y as i32)
}

/// The cells among the first `n` that `w` holds, in order, each as its column
/// and its row.
pub open spec fn cells_below(w: u64, n: nat) -> Seq<(u8, u8)>
    decreases n,
{
    if n == 0 {
        Seq::empty()
    } else if holds(w, (n - 1) as u64) {
        cells_below(w, (n - 1) as nat).push((((n - 1) % 8) as u8, ((n - 1) / 8) as u8))
    } else {
        cells_below(w, (n - 1) as nat)
    }
}

/// The cells to wall for a solution, row by row, each as its column and its row.
pub fn wall_cells(solution: u64) -> (cells: Vec<(u8, u8)>)
    ensures
        cells@ == cells_below(solution, 64),
{
    let mut cells: Vec<(u8, u8)> = Vec::new();
    let mut i: u64 = 0;
    while i < 64
        invariant
            i <= 64,
            cells@ == cells_below(solution, i as nat),
        decreases 64 - i,
    {
        let bit: u64 = 1u64 << (63 - i);
        assert((solution & bit != 0) == holds(solution, i)) by (bit_vector)
            requires
                i < 64,
                bit == 1u64 << ((63 - i) as u64),
        ;
        if solution & bit != 0 {
            cells.push(((i % 8) as u8, (i / 8) as u8));
        }
        i = i + 1;
    }
    cells
}

/// Where to click, in the game's window, to wall the cell in column `x` and row `y`.
pub fn wall_click(x: u8, y: u8) -> (at: (u32, u32))
    ensures
        at.0 == x * 33 + 66,
        at.1 == y * 33 + 191,
{
    (x as u32 * 33 + 66, y as u32 * 33 + 191)
}

/// The colour of the bare floor at the sample point of each tile, row by row.
pub const BACKGROUND_PIXELS: [[[u8; 4]; 8]; 8] = [
    [[176, 128, 93, 255], [55, 58, 59, 255], [125, 113, 90, 255], [54, 58, 55, 255], [176, 128, 93, 255], [55, 58, 59, 255], [125, 113, 90, 255], [54, 58, 55, 255]],
    [[55, 58, 59, 255], [56, 59, 55, 255], [54, 58, 55, 255], [54, 58, 55, 255], [55, 58, 59, 255], [55, 58, 59, 255], [54, 58, 55, 255], [54, 58, 55, 255]],
    [[57, 59, 55, 255], [55, 58, 59, 255], [54, 58, 55, 255], [54, 56, 58, 255], [54, 58, 55, 255], [54, 58, 55, 255], [57, 59, 55, 255], [55, 58, 59, 255]],
    [[55, 58, 59, 255], [55, 58, 59, 255], [54, 58, 55, 255], [54, 58, 55, 255], [54, 58, 55, 255], [54, 58, 55, 255], [55, 58, 59, 255], [55, 58, 59, 255]],
    [[54, 58, 55, 255], [54, 58, 55, 255], [57, 59, 55, 255], [55, 58, 59, 255], [54, 58, 55, 255], [54, 56, 58, 255], [54, 58, 55, 255], [40, 44, 41, 255]],
    [[54, 58, 55, 255], [54, 58, 55, 255], [55, 58, 59, 255], [55, 58, 59, 255], [54, 58, 55, 255], [54, 58, 55, 255], [54, 58, 55, 255], [54, 58, 55, 255]],
    [[57, 59, 55, 255], [55, 58, 59, 255], [54, 58, 55, 255], [54, 56, 58, 255], [54, 58, 55, 255], [54, 58, 55, 255], [57, 59, 55, 255], [55, 58, 59, 255]],
    [[55, 58, 59, 255], [55, 58, 59, 255], [54, 58, 55, 255], [54, 58, 55, 255], [54, 58, 55, 255], [54, 58, 55, 255], [55, 58, 59, 255], [55, 58, 59, 255]],
];

/// Where, within the board's part of the screenshot, the tile in column `x`
/// and row `y` is sampled.
pub fn tile_sample_point(x: u8, y: u8) -> (at: (u32, u32))
    ensures
        at.0 == x * 33 + 16,
        at.1 == y * 33 + 12,
{
    (x as u32 * TILE_STRIDE + 16, y as u32 * TILE_STRIDE + 12)
}

/// The tile that `sample` shows at row `r` and column `c`.
pub open spec fn tile_of(sample: [u8; 4], r: int, c: int) -> Tile {
    if sample@ == BACKGROUND_PIXELS[r][c]@ {
        Tile::Empty
    } else if is_treasure_color(sample) {
        Tile::Treasure
    } else {
        Tile::Monster
    }
}

/// The tiles of a board, from the colour sampled on each of them.
pub fn parse_tiles(samples: &[[[u8; 4]; 8]; 8]) -> (tiles: [[Tile; 8]; 8])
    ensures
        forall|r: int, c: int|
            0 <= r < 8 && 0 <= c < 8 ==> #[trigger] tiles[r][c] == tile_of(samples[r][c], r, c),
{
    let mut tiles = [[Tile::Empty;8];8];
    let mut r: usize = 0;
    while r < 8
        invariant
            r <= 8,
            forall|i: int, c: int|
                0 <= i < r && 0 <= c < 8 ==> #[trigger] tiles[i][c] == tile_of(samples[i][c], i, c),
        decreases 8 - r,
    {
        let mut row = [Tile::Empty;8];
        let mut c: usize = 0;
        while c < 8
            invariant
                c <= 8,
                r < 8,
                forall|j: int| 0 <= j < c ==> #[trigger] row[j] == tile_of(samples[r as int][j], r as int, j),
            decreases 8 - c,
        {
            row[c] = classify_tile(samples[r][c], BACKGROUND_PIXELS[r][c]);
            c = c + 1;
        }
        tiles[r] = row;
        r = r + 1;
    }
    tiles
}

/// Where, within the strip of the column clues, the sampled window of clue
/// `i` starts. The window is 4 pixels wide and 2 high.
pub fn top_digit_window(i: u8) -> (at: (u32, u32))
    requires
        i < 8,
    ensures
        at.0 == i * 33 + 3 + (if i == 0 { 1int } else { 0int }),
        at.1 == 11,
{
    let nudge: u32 = if i == 0 { 1 } else { 0 };
    (i as u32 * TILE_STRIDE + 3 + nudge, 11)
}

/// How far down the clue of row `i` stands from where the stride would put it.
pub open spec fn left_nudge(i: int) -> int {
    if i == 0 {
        0
    } else if i == 1 || i == 2 || i == 5 || i == 6 {
        2
    } else {
        1
    }
}

/// Where, within the strip of the row clues, the sampled window of clue `i`
/// starts. The window is 4 pixels wide and 2 high.
pub fn left_digit_window(i: u8) -> (at: (u32, u32))
    requires
        i < 8,
    ensures
        at.0 == 3,
        at.1 == i * 33 + 11 + left_nudge(i as int),
{
    let nudge: u32 = if i == 0 {
        0
    } else if i == 1 || i == 2 || i == 5 || i == 6 {
        2
    } else {
        1
    };
    (3, i as u32 * TILE_STRIDE + 11 + nudge)
}

/// The digit that the window `w` shows, if it shows one.
pub open spec fn window_digit(w: [[u8; 4]; 8]) -> Option<u8> {
    digit_of_count(count_where(ink_at(w@), 8) as int)
}

/// The clues of the columns and of the rows, from the pixels of their sampled
/// windows. One window that shows no digit fails the whole.
pub fn parse_wall_counts(top: &[[[u8; 4]; 8]; 8], left: &[[[u8; 4]; 8]; 8]) -> (res: Result<
    ([u8; 8], [u8; 8]),
    ParseError,
>)
    ensures
        res is Ok <==> forall|i: int|
            0 <= i < 8 ==> window_digit(#[trigger] top[i]) is Some && window_digit(left[i]) is Some,
        res is Ok ==> forall|i: int|
            0 <= i < 8 ==> window_digit(#[trigger] top[i]) == Some(res->Ok_0.0[i]) && window_digit(
                left[i],
            ) == Some(res->Ok_0.1[i]),
        res is Err ==> res->Err_0 == ParseError::UnknownDigit,
{
    let mut top_nums = [0u8;8];
    let mut left_nums = [0u8;8];
    let mut i: usize = 0;
    while i < 8
        invariant
            i <= 8,
            forall|k: int|
                0 <= k < i ==> window_digit(#[trigger] top[k]) == Some(top_nums[k]) && window_digit(
                    left[k],
                ) == Some(left_nums[k]),
        decreases 8 - i,
    {
        let top_window = top[i];
        let left_window = left[i];
        assert(top_window@.len() == 8 && left_window@.len() == 8);
        match digit_from_pixels(top_window.as_slice()) {
            Ok(d) => {
                top_nums[i] = d;
            },
            Err(e) => {
                assert(window_digit(top[i as int]) is None);
                return Err(e);
            },
        }
        match digit_from_pixels(left_window.as_slice()) {
            Ok(d) => {
                left_nums[i] = d;
            },
            Err(e) => {
                assert(window_digit(left[i as int]) is None);
                assert(window_digit(top[i as int]) is Some);
                return Err(e);
            },
        }
        i = i + 1;
    }
    Ok((top_nums, left_nums))
}

/// The test whether a pixel of the column `col`, given by its red values from
/// the top down, is ink of the seed.
pub open spec fn seed_ink(col: [u8; 7]) -> spec_fn(int) -> bool {
    |k: int| col[k] == 52
}

/// The ink of a column of the seed's strip as seven bits, the top pixel highest.
pub open spec fn column_hash(col: [u8; 7]) -> u64 {
    pack(seed_ink(col), 7)
}

/// The digit whose leftmost column has the hash `h`, if one has.
pub open spec fn digit_of_hash(h: u64) -> Option<u8> {
    if h == 28 {
        Some(0u8)
    } else if h == 33 {
        Some(1u8)
    } else if h == 17 {
        Some(2u8)
    } else if h == 18 {
        Some(3u8)
    } else if h == 8 {
        Some(4u8)
    } else if h == 122 {
        Some(5u8)
    } else if h == 62 {
        Some(6u8)
    } else if h == 16 {
        Some(7u8)
    } else if h == 54 {
        Some(8u8)
    } else if h == 50 {
        Some(9u8)
    } else {
        None
    }
}

/// How many columns the scan moves on after the first column of digit `d`.
pub open spec fn digit_width(d: u8) -> nat {
    if d == 1 {
        5
    } else if d == 4 {
        7
    } else {
        8
    }
}

/// The seed that the columns from `x` on show, after the digits read so far
/// gave `seed`: empty columns are passed over; any other column starts a
/// digit, which is known by that column's hash and adds a decimal place.
pub open spec fn scan_seed(cols: Seq<[u8; 7]>, x: nat, seed: nat, present: bool) -> Result<
    Option<u32>,
    ParseError,
>
    decreases
        (if x < cols.len() {
            cols.len() - x
        } else {
            0
        }),
{
    if x >= cols.len() {
        Ok(if present { Some(seed as u32) } else { None })
    } else if column_hash(cols[x as int]) == 0 {
        scan_seed(cols, x + 1, seed, present)
    } else {
        match digit_of_hash(column_hash(cols[x as int])) {
            None => Err(ParseError::BadSeed),
            Some(d) => if seed * 10 + d > u32::MAX {
                Err(ParseError::BadSeed)
            } else {
                scan_seed(cols, x + digit_width(d), (seed * 10 + d) as nat, true)
            },
        }
    }
}

/// The ink of a column of the seed's strip as seven bits, the top pixel highest.
fn hash_column(col: &[u8; 7]) -> (h: u64)
    ensures
        h == column_hash(*col),
{
    let mut h: u64 = 0;
    let mut k: usize = 0;
    while k < 7
        invariant
            k <= 7,
            h == pack(seed_ink(*col), k as nat),
        decreases 7 - k,
    {
        let bit: u64 = if col[k] == 52 { 1 } else { 0 };
        h = (h << 1) | bit;
        k = k + 1;
    }
    h
}

/// The seed that the strip above the board shows, from the red values of its
/// columns, left to right: `None` where the strip is empty. A column that
/// starts no known digit, or a seed above `u32::MAX`, is an error.
pub fn parse_seed(cols: &[[u8; 7]]) -> (res: Result<Option<u32>, ParseError>)
    ensures
        res == scan_seed(cols@, 0, 0, false),
{
    let mut seed: u32 = 0;
    let mut present = false;
    let mut x: usize = 0;
    while x < cols.len()
        invariant
            scan_seed(cols@, x as nat, seed as nat, present) == scan_seed(cols@, 0, 0, false),
        decreases cols@.len() - x,
    {
        let hash = hash_column(&cols[x]);
        if hash == 0 {
            x = x + 1;
        } else {
            let digit: u8 = match hash {
                28 => 0,
                33 => 1,
                17 => 2,
                18 => 3,
                8 => 4,
                122 => 5,
                62 => 6,
                16 => 7,
                54 => 8,
                50 => 9,
                _ => {
                    return Err(ParseError::BadSeed);
                },
            };
            assert(digit_of_hash(hash) == Some(digit));
            if seed > (u32::MAX - digit as u32) / 10 {
                return Err(ParseError::BadSeed);
            }
            seed = seed * 10 + digit as u32;
            present = true;
            let width: usize = if digit == 1 { 5 } else if digit == 4 { 7 } else { 8 };
            let ghost jump = (x + width) as nat;
            x = if width >= cols.len() - x { cols.len() } else { x + width };
            assert(scan_seed(cols@, jump, seed as nat, true) == scan_seed(
                cols@,
                x as nat,
                seed as nat,
                true,
            ));
        }
    }
    Ok(if present { Some(seed) } else { None })
}

/// Three pixels that occur once in the game's window, 299 pixels right of the
/// corner of the puzzle's part of it.
pub const PATTERN: [u8; 12] = [69, 52, 56, 255, 237, 169, 135, 255, 181, 147, 131, 255];

/// Why the puzzle's part of the window was not found.
#[derive(Debug, Copy, Clone, PartialEq, Eq)]
pub enum LocateError {
    /// The pattern does not occur.
    NotFound,
    /// The pattern occurs once, where the puzzle's part cannot lie.
    OutOfBounds,
    /// The pattern occurs this many times.
    Multiple(usize),
}

/// Whether the pattern starts at pixel `i` of an image of four bytes a pixel.
pub open spec fn pattern_at(bytes: Seq<u8>, i: int) -> bool {
    0 <= i && 4 * i + 12 <= bytes.len() && bytes.subrange(4 * i, 4 * i + 12) == PATTERN@
}

/// The test whether the pattern starts at a pixel.
pub open spec fn pattern_in(bytes: Seq<u8>) -> spec_fn(int) -> bool {
    |i: int| pattern_at(bytes, i)
}

/// The number of pixels at which three pixels can start.
pub open spec fn window_count(len: nat) -> nat {
    if len < 12 {
        0
    } else {
        ((len - 12) / 4 + 1) as nat
    }
}

/// Whether the corner that belongs to the pattern at pixel `i`, in an image
/// `width` pixels wide, is `corner`, and lies where the puzzle's part can lie.
pub open spec fn corner_of(i: int, width: int, corner: (u32, u32)) -> bool {
    i % width == corner.0 + 299 && i / width == corner.1 && corner.0 <= 625 && corner.1 <= 80
}

/// Whether the pattern starts at pixel `i`.
fn matches_at(bytes: &[u8], i: usize) -> (found: bool)
    requires
        4 * i + 12 <= bytes@.len(),
    ensures
        found == pattern_at(bytes@, i as int),
{
    let len: usize = bytes.len();
    let mut k: usize = 0;
    while k < 12
        invariant
            k <= 12,
            4 * i + 12 <= len == bytes@.len(),
            forall|j: int| 0 <= j < k ==> bytes@[4 * i + j] == PATTERN[j],
        decreases 12 - k,
    {
        if bytes[4 * i + k] != PATTERN[k] {
            assert(bytes@.subrange(4 * i, 4 * i + 12)[k as int] != PATTERN@[k as int]);
            return false;
        }
        k = k + 1;
    }
    assert(bytes@.subrange(4 * i, 4 * i + 12) =~= PATTERN@);
    true
}

/// Finds the corner of the puzzle's part of the game's window in an image of
/// four bytes a pixel, `width` pixels wide: 299 pixels left of the one place
/// where the pattern occurs.
pub fn find_dnd_offset(bytes: &[u8], width: u32) -> (res: Result<(u32, u32), LocateError>)
    requires
        width > 0,
        bytes@.len() / 4 <= u32::MAX,
    ensures
        ({
            let n = window_count(bytes@.len());
            let found = count_where(pattern_in(bytes@), n);
            match res {
                Ok(corner) => found == 1 && exists|i: int|
                    0 <= i < n && #[trigger] pattern_at(bytes@, i) && corner_of(
                        i,
                        width as int,
                        corner,
                    ),
                Err(LocateError::NotFound) => found == 0,
                Err(LocateError::Multiple(k)) => found == k && k >= 2,
                Err(LocateError::OutOfBounds) => found == 1 && forall|i: int, corner: (u32, u32)|
                    0 <= i < n && #[trigger] pattern_at(bytes@, i) ==> !#[trigger] corner_of(
                        i,
                        width as int,
                        corner,
                    ),
            }
        }),
{
    let n: usize = if bytes.len() < 12 { 0 } else { (bytes.len() - 12) / 4 + 1 };
    let mut found: usize = 0;
    let mut first: usize = 0;
    let mut i: usize = 0;
    while i < n
        invariant
            i <= n,
            n == window_count(bytes@.len()),
            found == count_where(pattern_in(bytes@), i as nat),
            found <= i,
            found == 0 ==> forall|j: int| 0 <= j < i ==> !#[trigger] pattern_at(bytes@, j),
            found >= 1 ==> first < i && pattern_at(bytes@, first as int),
            found == 1 ==> forall|j: int| 0 <= j < i && #[trigger] pattern_at(bytes@, j) ==> j == first,
        decreases n - i,
    {
        if matches_at(bytes, i) {
            if found == 0 {
                first = i;
            }
            found = found + 1;
        }
        i = i + 1;
    }
    if found == 0 {
        Err(LocateError::NotFound)
    } else if found == 1 {
        let pixel: u32 = first as u32;
        let column: u32 = pixel % width;
        let y: u32 = pixel / width;
        if column < 299 || column - 299 > 625 || y > 80 {
            Err(LocateError::OutOfBounds)
        } else {
            let corner = (column - 299, y);
            assert(corner_of(first as int, width as int, corner));
            Ok(corner)
        }
    } else {
        Err(LocateError::Multiple(found))
    }
}

/// The mean of `a` and `b` with the weights `wa` and `wb`, rounded down.
pub open spec fn weighted(a: u8, wa: int, b: u8, wb: int) -> int {
    (a * wa + b * wb) / (wa + wb)
}

/// A weighted mean of two bytes is a byte.
proof fn lemma_weighted(a: u8, wa: int, b: u8, wb: int)
    requires
        0 <= wa,
        0 <= wb,
        0 < wa + wb,
    ensures
        0 <= weighted(a, wa, b, wb) <= 255,
{
    assert(0 <= a * wa + b * wb <= 255 * (wa + wb)) by (nonlinear_arith)
        requires
            0 <= wa,
            0 <= wb,
            0 <= a <= 255,
            0 <= b <= 255,
    ;
    assert((a * wa + b * wb) / (wa + wb) <= 255 && (a * wa + b * wb) / (wa + wb) >= 0)
        by (nonlinear_arith)
        requires
            0 <= a * wa + b * wb <= 255 * (wa + wb),
            0 < wa + wb,
    ;
}

/// The pixel `under` with the colour `over` drawn on it: `over` itself on a
/// pixel without alpha, else red, green and blue as the mean of the two,
/// each weighted by its alpha, under the alpha of `under`.
pub fn blend_over(under: [u8; 4], over: [u8; 4]) -> (mixed: [u8; 4])
    ensures
        under[3] == 0 ==> mixed == over,
        under[3] != 0 ==> mixed[3] == under[3] && forall|i: int|
            0 <= i < 3 ==> #[trigger] mixed[i] == weighted(
                over[i],
                over[3] as int,
                under[i],
                under[3] as int,
            ),
{
    let sa = over[3] as u32;
    let da = under[3] as u32;
    if da == 0 {
        over
    } else {
        let mut mixed = under;
        let mut i: usize = 0;
        while i < 3
            invariant
                i <= 3,
                da == under[3],
                sa == over[3],
                da > 0,
                mixed[3] == under[3],
                forall|k: int| 0 <= k < i ==> #[trigger] mixed[k] == weighted(
                    over[k],
                    sa as int,
                    under[k],
                    da as int,
                ),
            decreases 3 - i,
        {
            proof {
                lemma_weighted(over[i as int], sa as int, under[i as int], da as int);
                assert(over[i as int] * sa <= 255 * 255 && under[i as int] * da <= 255 * 255)
                    by (nonlinear_arith)
                    requires
                        over[i as int] <= 255,
                        under[i as int] <= 255,
                        sa <= 255,
                        da <= 255,
                ;
            }
            let mean = (over[i] as u32 * sa + under[i] as u32 * da) / (sa + da);
            mixed[i] = mean as u8;
            i = i + 1;
        }
        mixed
    }
}

/// The pixel `under` with the pixel `over` laid on it: red, green and blue as
/// the mean of the two, `over` weighted by its alpha and `under` by the rest
/// to 255, under the alpha of `under`.
pub fn overlay_pixel(over: [u8; 4], under: [u8; 4]) -> (mixed: [u8; 4])
    ensures
        mixed[3] == under[3],
        forall|i: int|
            0 <= i < 3 ==> #[trigger] mixed[i] == weighted(
                over[i],
                over[3] as int,
                under[i],
                255 - over[3],
            ),
{
    let alpha = over[3] as u32;
    let mut mixed = under;
    let mut i: usize = 0;
    while i < 3
        invariant
            i <= 3,
            alpha == over[3],
            mixed[3] == under[3],
            forall|k: int| 0 <= k < i ==> #[trigger] mixed[k] == weighted(
                over[k],
                alpha as int,
                under[k],
                255 - alpha,
            ),
        decreases 3 - i,
    {
        proof {
            lemma_weighted(over[i as int], alpha as int, under[i as int], 255 - alpha);
            assert(over[i as int] * alpha <= 255 * 255 && under[i as int] * (255 - alpha) <= 255
                * 255) by (nonlinear_arith)
                requires
                    over[i as int] <= 255,
                    under[i as int] <= 255,
                    0 <= alpha <= 255,
            ;
        }
        let mean = (over[i] as u32 * alpha + under[i] as u32 * (255 - alpha)) / 255;
        mixed[i] = mean as u8;
        i = i + 1;
    }
    mixed
}

} // verus!
