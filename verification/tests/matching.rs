use dungeon_solver::matching::compare_images;

const BLACK: [u8; 4] = [0, 0, 0, 255];
const WHITE: [u8; 4] = [255, 255, 255, 255];
const CLEAR: [u8; 4] = [255, 255, 255, 0];

/// A black image with white pixels at the given columns and rows.
fn image(width: usize, height: usize, white: &[(usize, usize)]) -> Vec<[u8; 4]> {
    let mut pixels = vec![BLACK; width * height];
    for &(x, y) in white {
        pixels[y * width + x] = WHITE;
    }
    pixels
}

#[test]
fn a_needle_is_found_where_it_lies() {
    let hay = image(6, 5, &[(3, 2), (4, 3)]);
    let needle = image(2, 2, &[(0, 0), (1, 1)]);
    assert_eq!(compare_images(&hay, 6, 5, &needle, 2, 2), (0, (3, 2)));
}

#[test]
fn the_first_of_equal_places_is_taken() {
    let hay = image(5, 5, &[]);
    let needle = image(2, 2, &[]);
    assert_eq!(compare_images(&hay, 5, 5, &needle, 2, 2), (0, (0, 0)));
    // one white pixel in the needle costs the same everywhere
    let needle = image(2, 2, &[(0, 0)]);
    assert_eq!(compare_images(&hay, 5, 5, &needle, 2, 2), (3 * 255 * 255, (0, 0)));
}

#[test]
fn columns_are_walked_before_rows() {
    // the needle matches at (0, 2) and at (1, 0): the column to the left wins
    let hay = image(4, 5, &[(0, 2), (1, 0)]);
    let needle = image(1, 1, &[(0, 0)]);
    assert_eq!(compare_images(&hay, 4, 5, &needle, 1, 1), (0, (0, 2)));
}

#[test]
fn the_least_error_wins_where_nothing_matches() {
    // needle: two white pixels side by side; the haystack has one white pixel at (2, 1)
    let hay = image(5, 4, &[(2, 1)]);
    let needle = image(2, 1, &[(0, 0), (1, 0)]);
    // with the corner at (1, 1) or (2, 1) one pixel agrees
    assert_eq!(compare_images(&hay, 5, 4, &needle, 2, 1), (3 * 255 * 255, (1, 1)));
}

#[test]
fn the_last_column_and_row_are_left_out() {
    // the only match lies in the last column that fits
    let hay = image(4, 4, &[(3, 1)]);
    let needle = image(1, 1, &[(0, 0)]);
    assert_eq!(compare_images(&hay, 4, 4, &needle, 1, 1), (3 * 255 * 255, (0, 0)));
    let hay = image(4, 4, &[(1, 3)]);
    assert_eq!(compare_images(&hay, 4, 4, &needle, 1, 1), (3 * 255 * 255, (0, 0)));
}

#[test]
fn a_needle_as_large_as_the_haystack_finds_no_place() {
    let hay = image(3, 3, &[]);
    assert_eq!(compare_images(&hay, 3, 3, &hay, 3, 3), (u64::MAX, (0, 0)));
    let needle = image(3, 1, &[]);
    assert_eq!(compare_images(&hay, 3, 3, &needle, 3, 1), (u64::MAX, (0, 0)));
    let needle = image(1, 3, &[]);
    assert_eq!(compare_images(&hay, 3, 3, &needle, 1, 3), (u64::MAX, (0, 0)));
}

#[test]
fn clear_pixels_of_the_needle_match_anything() {
    let hay = image(4, 5, &[(2, 2)]);
    let needle = vec![CLEAR, WHITE, CLEAR, CLEAR];
    // the white pixel of the needle, at (1, 0) in it, lies on (2, 2) with the corner at (1, 2)
    assert_eq!(compare_images(&hay, 4, 5, &needle, 2, 2), (0, (1, 2)));
    // a needle of clear pixels matches at once
    assert_eq!(compare_images(&hay, 4, 5, &[CLEAR; 4], 2, 2), (0, (0, 0)));
}
