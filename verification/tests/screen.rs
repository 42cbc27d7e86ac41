use dungeon_solver::codec::{read_records, ParseError};
use dungeon_solver::puzzle::{Puzzle, Tile};
use dungeon_solver::screen::{
    blend_over, classify_tile, compare_pixels, correct_offset, count_to_digit, digit_from_pixels,
    find_dnd_offset, left_digit_window, overlay_pixel, parse_seed, parse_tiles,
    parse_wall_counts, tile_sample_point, top_digit_window, wall_cells, wall_click, LocateError,
    BACKGROUND_PIXELS, PATTERN,
};

const INK: [u8; 4] = [52, 91, 70, 255];
const BLANK: [u8; 4] = [0, 0, 0, 255];

/// A window with `n` pixels of ink.
fn window(n: usize) -> [[u8; 4]; 8] {
    let mut w = [BLANK; 8];
    for p in w.iter_mut().take(n) {
        *p = INK;
    }
    w
}

#[test]
fn counts_stand_for_digits() {
    let digits = [(4, 0), (0, 1), (5, 2), (2, 3), (3, 4), (8, 5), (6, 6), (1, 7)];
    for (count, digit) in digits {
        assert_eq!(count_to_digit(count), Ok(digit));
    }
    assert_eq!(count_to_digit(7), Err(ParseError::UnknownDigit));
    assert_eq!(count_to_digit(9), Err(ParseError::UnknownDigit));
    assert_eq!(count_to_digit(usize::MAX), Err(ParseError::UnknownDigit));
}

#[test]
fn ink_is_told_by_green_and_blue() {
    assert_eq!(digit_from_pixels(&[]), Ok(1));
    assert_eq!(digit_from_pixels(&[INK, BLANK, INK]), Ok(3));
    assert_eq!(digit_from_pixels(&[[0, 91, 69, 0], [9, 91, 78, 9]]), Ok(3));
    assert_eq!(digit_from_pixels(&[[0, 91, 68, 0], [0, 91, 79, 0], [0, 90, 70, 0]]), Ok(1));
    assert_eq!(digit_from_pixels(&window(7)), Err(ParseError::UnknownDigit));
    assert_eq!(digit_from_pixels(&window(8)), Ok(5));
}

#[test]
fn wall_counts_from_windows() {
    let top = [4, 0, 5, 2, 3, 8, 6, 1].map(window);
    let left = [1, 6, 8, 3, 2, 5, 0, 4].map(window);
    assert_eq!(
        parse_wall_counts(&top, &left),
        Ok(([0, 1, 2, 3, 4, 5, 6, 7], [7, 6, 5, 4, 3, 2, 1, 0]))
    );
    let mut bad = left;
    bad[7] = window(7);
    assert_eq!(parse_wall_counts(&top, &bad), Err(ParseError::UnknownDigit));
    assert_eq!(parse_wall_counts(&bad, &left), Err(ParseError::UnknownDigit));
}

#[test]
fn clue_windows_follow_the_stride() {
    assert_eq!(top_digit_window(0), (4, 11));
    assert_eq!(top_digit_window(1), (36, 11));
    assert_eq!(top_digit_window(7), (234, 11));
    let nudges = [0, 2, 2, 1, 1, 2, 2, 1];
    for i in 0..8u8 {
        assert_eq!(left_digit_window(i), (3, i as u32 * 33 + 11 + nudges[i as usize]));
    }
}

#[test]
fn tiles_by_colour() {
    let floor = [54, 58, 55, 255];
    assert_eq!(classify_tile(floor, floor), Tile::Empty);
    assert_eq!(classify_tile([220, 170, 109, 255], floor), Tile::Treasure);
    assert_eq!(classify_tile([220, 170, 109, 254], floor), Tile::Monster);
    assert_eq!(classify_tile([1, 2, 3, 4], floor), Tile::Monster);
    // the floor wins where it has the colour of treasure
    assert_eq!(classify_tile([220, 170, 109, 255], [220, 170, 109, 255]), Tile::Empty);
}

#[test]
fn a_board_of_bare_floor_is_empty() {
    assert_eq!(parse_tiles(&BACKGROUND_PIXELS), [[Tile::Empty; 8]; 8]);
    let mut samples = BACKGROUND_PIXELS;
    samples[0][1] = BACKGROUND_PIXELS[0][0];
    samples[4][7] = [220, 170, 109, 255];
    let tiles = parse_tiles(&samples);
    assert_eq!(tiles[0][1], Tile::Monster);
    assert_eq!(tiles[4][7], Tile::Treasure);
    assert_eq!(tiles[0][0], Tile::Empty);
    assert_eq!(BACKGROUND_PIXELS[4][7], [40, 44, 41, 255]);
}

#[test]
fn sample_points_follow_the_stride() {
    assert_eq!(tile_sample_point(0, 0), (16, 12));
    assert_eq!(tile_sample_point(7, 3), (247, 111));
}

/// A column of the seed's strip whose ink has the given hash.
fn column(hash: u8) -> [u8; 7] {
    let mut col = [0u8; 7];
    for (k, red) in col.iter_mut().enumerate() {
        if hash & (1 << (6 - k)) != 0 {
            *red = 52;
        }
    }
    col
}

/// A strip that shows the digits, each at its width.
fn strip(digits: &[u8]) -> Vec<[u8; 7]> {
    let hashes = [28, 33, 17, 18, 8, 122, 62, 16, 54, 50];
    let widths = [8, 5, 8, 8, 7, 8, 8, 8, 8, 8];
    let mut cols = vec![column(0); 2];
    for &d in digits {
        cols.push(column(hashes[d as usize]));
        // what follows the first column of a digit is passed over unread
        cols.extend(vec![column(127); widths[d as usize] - 1]);
    }
    cols.push(column(0));
    cols
}

#[test]
fn an_empty_strip_has_no_seed() {
    assert_eq!(parse_seed(&[]), Ok(None));
    assert_eq!(parse_seed(&vec![column(0); 63]), Ok(None));
}

#[test]
fn a_seed_is_read_digit_by_digit() {
    assert_eq!(parse_seed(&strip(&[2, 4, 7, 3, 7, 3, 6, 2])), Ok(Some(24737362)));
    assert_eq!(parse_seed(&strip(&[0])), Ok(Some(0)));
    assert_eq!(parse_seed(&strip(&[0, 1, 5, 8, 9])), Ok(Some(1589)));
    assert_eq!(parse_seed(&[column(50)]), Ok(Some(9)));
}

#[test]
fn an_unknown_column_is_a_bad_seed() {
    assert_eq!(parse_seed(&[column(0), column(1)]), Err(ParseError::BadSeed));
    assert_eq!(parse_seed(&[column(127)]), Err(ParseError::BadSeed));
}

#[test]
fn a_seed_above_the_largest_is_a_bad_seed() {
    assert_eq!(parse_seed(&strip(&[4, 2, 9, 4, 9, 6, 7, 2, 9, 5])), Ok(Some(u32::MAX)));
    assert_eq!(parse_seed(&strip(&[4, 2, 9, 4, 9, 6, 7, 2, 9, 6])), Err(ParseError::BadSeed));
    assert_eq!(parse_seed(&strip(&[9; 11])), Err(ParseError::BadSeed));
}

#[test]
fn pixels_are_compared_by_squared_distance() {
    assert_eq!(compare_pixels([1, 2, 3, 4], [1, 2, 3, 255]), 0);
    assert_eq!(compare_pixels([10, 20, 30, 0], [13, 16, 30, 255]), 9 + 16);
    assert_eq!(compare_pixels([0, 0, 0, 255], [255, 255, 255, 255]), 3 * 255 * 255);
    assert_eq!(compare_pixels([255, 0, 255, 7], [0, 255, 0, 255]), 3 * 255 * 255);
}

#[test]
fn a_needle_that_is_not_opaque_matches_anything() {
    assert_eq!(compare_pixels([0, 0, 0, 255], [255, 255, 255, 254]), 0);
    assert_eq!(compare_pixels([9, 9, 9, 9], [1, 1, 1, 0]), 0);
}

#[test]
fn offsets_are_taken_within_a_tile() {
    // centre (16, 16); x: (49 + 16 - 49) % 33 = 16; y: (175 + 16 - 175) % 33 = 16
    assert_eq!(correct_offset((32, 32), (49, 175)), (0, 0));
    // x: (100 + 10 - 49) % 33 = 28; y: (200 + 15 - 175) % 33 = 7
    assert_eq!(correct_offset((20, 30), (100, 200)), (10 - 28, 15 - 7));
    assert_eq!(correct_offset((0, 0), (49, 175)), (0, 0));
    assert_eq!(correct_offset((0, 0), (49 + 32, 175 + 33)), (-32, 0));
}

#[test]
fn cells_of_a_solution_come_row_by_row() {
    assert_eq!(wall_cells(0), vec![]);
    assert_eq!(wall_cells(1 << 63), vec![(0, 0)]);
    assert_eq!(wall_cells(1), vec![(7, 7)]);
    assert_eq!(wall_cells((1 << 62) | (1 << 55) | (1 << 8)), vec![(1, 0), (0, 1), (7, 6)]);
    assert_eq!(wall_cells(u64::MAX).len(), 64);
    assert_eq!(wall_cells(u64::MAX)[9], (1, 1));
}

#[test]
fn clicks_follow_the_stride() {
    assert_eq!(wall_click(0, 0), (66, 191));
    assert_eq!(wall_click(7, 7), (297, 422));
    assert_eq!(wall_click(255, 255), (255 * 33 + 66, 255 * 33 + 191));
}

/// An image `width` pixels wide with the pattern at the given pixels.
fn image(width: usize, height: usize, at: &[usize]) -> Vec<u8> {
    let mut bytes = vec![0u8; width * height * 4];
    for &i in at {
        bytes[4 * i..4 * i + 12].copy_from_slice(&PATTERN);
    }
    bytes
}

#[test]
fn the_corner_lies_left_of_the_pattern() {
    let bytes = image(1000, 100, &[5 * 1000 + 299 + 20]);
    assert_eq!(find_dnd_offset(&bytes, 1000), Ok((20, 5)));
    let edge = image(1000, 100, &[80 * 1000 + 299 + 625]);
    assert_eq!(find_dnd_offset(&edge, 1000), Ok((625, 80)));
    let origin = image(1000, 100, &[299]);
    assert_eq!(find_dnd_offset(&origin, 1000), Ok((0, 0)));
}

#[test]
fn the_pattern_at_the_very_end_is_found() {
    let bytes = image(302, 1, &[299]);
    assert_eq!(bytes.len(), 4 * 299 + 12);
    assert_eq!(find_dnd_offset(&bytes, 302), Ok((0, 0)));
}

#[test]
fn no_pattern_is_not_found() {
    assert_eq!(find_dnd_offset(&[], 1), Err(LocateError::NotFound));
    assert_eq!(find_dnd_offset(&PATTERN[..11], 3), Err(LocateError::NotFound));
    assert_eq!(find_dnd_offset(&image(400, 10, &[]), 400), Err(LocateError::NotFound));
    // a pattern that starts within a pixel does not count
    let mut bytes = vec![0u8; 4000];
    bytes[1..13].copy_from_slice(&PATTERN);
    assert_eq!(find_dnd_offset(&bytes, 1000), Err(LocateError::NotFound));
}

#[test]
fn a_pattern_out_of_place_is_out_of_bounds() {
    assert_eq!(find_dnd_offset(&image(1000, 100, &[298]), 1000), Err(LocateError::OutOfBounds));
    assert_eq!(
        find_dnd_offset(&image(1000, 100, &[299 + 626]), 1000),
        Err(LocateError::OutOfBounds)
    );
    assert_eq!(
        find_dnd_offset(&image(1000, 100, &[81 * 1000 + 299]), 1000),
        Err(LocateError::OutOfBounds)
    );
}

#[test]
fn several_patterns_are_counted() {
    assert_eq!(
        find_dnd_offset(&image(1000, 100, &[300, 5000, 70000]), 1000),
        Err(LocateError::Multiple(3))
    );
    assert_eq!(find_dnd_offset(&image(1000, 100, &[0, 3]), 1000), Err(LocateError::Multiple(2)));
}

#[test]
fn records_are_read_one_after_the_other() {
    let mut first = Puzzle { top_nums: [1; 8], left_nums: [2; 8], seed: Some(7), ..Puzzle::default() };
    first.tiles[3][4] = Tile::Monster;
    let mut second = Puzzle::default();
    second.tiles[0][0] = Tile::Treasure;
    let mut bytes = Vec::new();
    first.serialize(&mut bytes);
    second.serialize(&mut bytes);
    assert_eq!(read_records(&bytes), vec![first, second]);
    bytes.extend([1, 2, 3]);
    assert_eq!(read_records(&bytes), vec![first, second]);
    assert_eq!(read_records(&bytes[..51]), vec![first]);
    assert_eq!(read_records(&bytes[..25]), vec![]);
    assert_eq!(read_records(&[]), vec![]);
}

#[test]
fn tiles_have_marks() {
    assert_eq!(Tile::Wall.to_str(), "W");
    assert_eq!(Tile::Treasure.to_str(), "T");
    assert_eq!(Tile::Monster.to_str(), "M");
    assert_eq!(Tile::Empty.to_str().chars().count(), 3);
}

#[test]
fn a_colour_drawn_on_a_clear_pixel_replaces_it() {
    assert_eq!(blend_over([9, 9, 9, 0], [1, 2, 3, 4]), [1, 2, 3, 4]);
    assert_eq!(blend_over([0, 0, 0, 0], [255, 0, 0, 128]), [255, 0, 0, 128]);
}

#[test]
fn a_colour_drawn_on_a_pixel_is_mixed_by_alpha() {
    // (200 * 128 + 100 * 255) / 383 = 133, (0 * 128 + 50 * 255) / 383 = 33
    assert_eq!(blend_over([100, 50, 0, 255], [200, 0, 0, 128]), [133, 33, 0, 255]);
    // equal weights give the mean, rounded down
    assert_eq!(blend_over([10, 21, 255, 7], [20, 20, 255, 7]), [15, 20, 255, 7]);
    // a colour without alpha leaves the pixel
    assert_eq!(blend_over([1, 2, 3, 4], [200, 200, 200, 0]), [1, 2, 3, 4]);
}

#[test]
fn a_pixel_laid_over_another_is_mixed_by_its_alpha() {
    assert_eq!(overlay_pixel([200, 100, 0, 255], [1, 2, 3, 77]), [200, 100, 0, 77]);
    assert_eq!(overlay_pixel([200, 100, 0, 0], [1, 2, 3, 77]), [1, 2, 3, 77]);
    // (200 * 51 + 100 * 204) / 255 = 120
    assert_eq!(overlay_pixel([200, 0, 255, 51], [100, 255, 255, 9]), [120, 204, 255, 9]);
}
