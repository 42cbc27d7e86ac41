use dungeon_solver::oracle::is_valid_solution;
use dungeon_solver::puzzle::{Puzzle, Tile};

/// A board of walls, with the cells of `open` empty.
fn walled_but(open: &[(usize, usize)]) -> Puzzle {
    let mut p = Puzzle { tiles: [[Tile::Wall; 8]; 8], ..Puzzle::default() };
    for &(r, c) in open {
        p.tiles[r][c] = Tile::Empty;
    }
    p
}

fn row(r: usize, from: usize, to: usize) -> Vec<(usize, usize)> {
    (from..=to).map(|c| (r, c)).collect()
}

#[test]
fn a_board_of_walls_is_accepted() {
    assert!(is_valid_solution(&walled_but(&[])));
}

#[test]
fn a_corridor_is_accepted() {
    assert!(is_valid_solution(&walled_but(&row(0, 0, 7))));
    assert!(is_valid_solution(&walled_but(&[(7, 7)])));
    assert!(is_valid_solution(&walled_but(&[(0, 0)])));
}

#[test]
fn monster_in_the_corner_with_one_exit_is_accepted() {
    let mut p = walled_but(&row(0, 1, 7));
    p.tiles[0][0] = Tile::Monster;
    assert!(is_valid_solution(&p));
    let mut q = walled_but(&[(1, 0), (2, 0), (3, 0)]);
    q.tiles[0][0] = Tile::Monster;
    assert!(is_valid_solution(&q));
}

#[test]
fn monster_in_the_corner_with_no_exit_is_rejected() {
    let mut p = walled_but(&row(2, 0, 7));
    p.tiles[0][0] = Tile::Monster;
    assert!(!is_valid_solution(&p));
}

#[test]
fn monster_in_the_corner_with_two_exits_is_rejected() {
    let mut p = walled_but(&[(0, 1), (1, 1), (1, 0)]);
    p.tiles[0][0] = Tile::Monster;
    assert!(!is_valid_solution(&p));
}

#[test]
fn monster_exits_in_each_direction() {
    for open in [(2, 3), (4, 3), (3, 2), (3, 4)] {
        let mut p = walled_but(&[open]);
        p.tiles[3][3] = Tile::Monster;
        assert!(is_valid_solution(&p), "{open:?}");
    }
    for pair in [[(2, 3), (4, 3)], [(3, 2), (3, 4)]] {
        let mut p = walled_but(&pair);
        p.tiles[3][3] = Tile::Monster;
        assert!(!is_valid_solution(&p), "{pair:?}");
    }
}

#[test]
fn a_row_end_is_not_next_to_the_next_row_start() {
    // the monster at the end of row 2 does not see the empty start of row 3
    let mut p = walled_but(&[(3, 0)]);
    p.tiles[2][7] = Tile::Monster;
    assert!(!is_valid_solution(&p));
    let mut q = walled_but(&[(2, 7)]);
    q.tiles[3][0] = Tile::Monster;
    assert!(!is_valid_solution(&q));
    // and the two cells are no region
    assert!(!is_valid_solution(&walled_but(&[(2, 7), (3, 0)])));
}

#[test]
fn neighbours_of_a_monster_that_are_not_empty_do_not_count() {
    // a monster next to a monster is no exit
    let mut p = walled_but(&[]);
    p.tiles[3][3] = Tile::Monster;
    p.tiles[3][4] = Tile::Monster;
    assert!(!is_valid_solution(&p));
}

#[test]
fn two_regions_are_rejected() {
    assert!(!is_valid_solution(&walled_but(&[(0, 0), (0, 2)])));
    assert!(!is_valid_solution(&walled_but(&[(0, 0), (1, 1)])));
    assert!(is_valid_solution(&walled_but(&[(0, 0), (0, 1), (1, 1)])));
}

#[test]
fn a_long_winding_corridor_is_one_region() {
    let mut open = row(0, 0, 7);
    open.push((1, 7));
    open.extend(row(2, 0, 7));
    open.push((3, 0));
    open.extend(row(4, 0, 7));
    open.push((5, 7));
    open.extend(row(6, 0, 7));
    assert!(is_valid_solution(&walled_but(&open)));
    open.retain(|&cell| cell != (3, 0));
    assert!(!is_valid_solution(&walled_but(&open)));
}

fn block(r: usize, c: usize) -> Vec<(usize, usize)> {
    (0..3).flat_map(|dr| (0..3).map(move |dc| (r + dr, c + dc))).collect()
}

#[test]
fn an_open_block_needs_a_treasure() {
    assert!(!is_valid_solution(&walled_but(&block(2, 2))));
    let mut p = walled_but(&block(2, 2));
    p.tiles[3][3] = Tile::Treasure;
    assert!(is_valid_solution(&p));
}

#[test]
fn a_treasure_needs_an_open_block() {
    let mut p = walled_but(&row(0, 0, 7));
    p.tiles[0][3] = Tile::Treasure;
    assert!(!is_valid_solution(&p));
}

#[test]
fn blocks_at_the_far_corner_count() {
    let mut p = walled_but(&block(5, 5));
    p.tiles[7][7] = Tile::Treasure;
    assert!(is_valid_solution(&p));
    let mut q = walled_but(&block(0, 0));
    q.tiles[0][0] = Tile::Treasure;
    assert!(is_valid_solution(&q));
}

#[test]
fn the_count_of_blocks_is_compared_not_their_places() {
    // a 3x4 room holds two blocks: one treasure is too few, two are right
    let mut open = block(1, 1);
    open.extend([(1, 4), (2, 4), (3, 4)]);
    let mut one = walled_but(&open);
    one.tiles[2][2] = Tile::Treasure;
    assert!(!is_valid_solution(&one));
    let mut two = one;
    two.tiles[2][3] = Tile::Treasure;
    assert!(is_valid_solution(&two));
}

#[test]
fn treasure_without_empty_floor_is_rejected() {
    let mut p = walled_but(&[]);
    for (r, c) in block(0, 0) {
        p.tiles[r][c] = Tile::Treasure;
    }
    assert!(!is_valid_solution(&p));
}

#[test]
fn an_all_empty_board_is_rejected_for_its_blocks() {
    assert!(!is_valid_solution(&Puzzle::default()));
}
