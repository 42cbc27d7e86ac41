use dungeon_solver::oracle::is_valid_solution;
use dungeon_solver::puzzle::{Puzzle, Tile};
use dungeon_solver::solve::{walls_to_solution, BackTracker, Solver};

fn solve(p: &Puzzle) -> Vec<u64> {
    BackTracker.solve(p)
}

/// The walls of `w` put on the empty cells of `p`.
fn with_walls(p: &Puzzle, w: u64) -> Puzzle {
    let mut q = *p;
    for r in 0..8 {
        q = q.apply_walls(r, (w >> (56 - 8 * r)) as u8);
    }
    q
}

fn row_count(w: u64, r: usize) -> u32 {
    ((w >> (56 - 8 * r)) as u8).count_ones()
}

fn col_count(w: u64, c: usize) -> u32 {
    (0..8).filter(|r| w & (1 << (63 - (r * 8 + c))) != 0).count() as u32
}

/// Row 0 open, column 3 open down to row 6, a monster below it.
fn shaft(top_of_shaft: u8) -> Puzzle {
    let mut p = Puzzle {
        top_nums: [7, 7, 7, top_of_shaft, 7, 7, 7, 7],
        left_nums: [0, 7, 7, 7, 7, 7, 7, 7],
        ..Puzzle::default()
    };
    p.tiles[7][3] = Tile::Monster;
    p
}

/// Every row but the first wants 8 walls, the second one 7.
fn one_gap() -> Puzzle {
    Puzzle { top_nums: [7; 8], left_nums: [0, 7, 8, 8, 8, 8, 8, 8], ..Puzzle::default() }
}

#[test]
fn all_eights_has_the_full_board_as_its_one_solution() {
    let p = Puzzle { top_nums: [8; 8], left_nums: [8; 8], ..Puzzle::default() };
    assert_eq!(solve(&p), vec![u64::MAX]);
}

#[test]
fn no_walls_at_all_is_no_solution() {
    let p = Puzzle::default();
    assert_eq!(solve(&p), Vec::<u64>::new());
}

#[test]
fn a_row_that_wants_more_than_it_can_get_has_no_solution() {
    let p = Puzzle { top_nums: [8, 8, 8, 0, 8, 8, 8, 8], left_nums: [8; 8], ..Puzzle::default() };
    assert_eq!(solve(&p), Vec::<u64>::new());
}

#[test]
fn a_candidate_left_over_in_the_last_row_is_no_solution() {
    let p = Puzzle { top_nums: [8; 8], left_nums: [8, 8, 8, 8, 8, 8, 8, 7], ..Puzzle::default() };
    assert_eq!(solve(&p), Vec::<u64>::new());
}

#[test]
fn the_shaft_has_one_solution() {
    assert_eq!(solve(&shaft(0)), vec![0x00ef_efef_efef_efef]);
}

#[test]
fn a_column_may_stay_below_its_clue() {
    let p = shaft(1);
    let found = solve(&p);
    assert_eq!(found, vec![0x00ef_efef_efef_efef]);
    assert_eq!(col_count(found[0], 3), 0);
}

#[test]
fn several_solutions_come_in_the_order_found() {
    let expected: Vec<u64> = [0x7fu64, 0xbf, 0xdf, 0xef, 0xf7, 0xfb, 0xfd, 0xfe]
        .iter()
        .map(|row| (row << 48) | 0x0000_ffff_ffff_ffff)
        .collect();
    assert_eq!(solve(&one_gap()), expected);
}

#[test]
fn solutions_are_distinct() {
    let found = solve(&one_gap());
    for i in 0..found.len() {
        for j in 0..i {
            assert_ne!(found[i], found[j]);
        }
    }
}

#[test]
fn solving_twice_gives_the_same() {
    for p in [one_gap(), shaft(0), shaft(1), Puzzle::default()] {
        assert_eq!(solve(&p), solve(&p));
    }
}

#[test]
fn rows_meet_their_clues_and_columns_do_not_exceed_theirs() {
    for p in [one_gap(), shaft(0), shaft(1)] {
        for w in solve(&p) {
            for k in 0..8 {
                assert_eq!(row_count(w, k), p.left_nums[k] as u32);
                assert!(col_count(w, k) <= p.top_nums[k] as u32);
            }
        }
    }
}

#[test]
fn columns_meet_their_clues_where_the_sums_agree() {
    let p = shaft(0);
    assert_eq!(p.top_nums.iter().map(|&x| x as u32).sum::<u32>(), 49);
    assert_eq!(p.left_nums.iter().map(|&x| x as u32).sum::<u32>(), 49);
    for w in solve(&p) {
        for c in 0..8 {
            assert_eq!(col_count(w, c), p.top_nums[c] as u32);
        }
    }
}

#[test]
fn solutions_are_accepted_boards_with_walls_on_empty_cells() {
    for p in [one_gap(), shaft(0), shaft(1)] {
        for w in solve(&p) {
            assert_eq!(w & !p.terrain_mask(Tile::Empty), 0);
            let q = with_walls(&p, w);
            assert!(is_valid_solution(&q));
            assert_eq!(walls_to_solution(&q), w);
        }
    }
}

#[test]
fn the_monster_of_the_shaft_has_one_exit() {
    let p = shaft(0);
    let q = with_walls(&p, solve(&p)[0]);
    assert_eq!(q.tiles[7][3], Tile::Monster);
    assert_eq!(q.tiles[6][3], Tile::Empty);
    assert_eq!(q.tiles[7][2], Tile::Wall);
    assert_eq!(q.tiles[7][4], Tile::Wall);
}

#[test]
fn a_monster_in_the_corner_gets_exactly_one_exit() {
    // row 0 open but for the monster, everything else walled
    let mut p = Puzzle {
        top_nums: [7, 7, 7, 7, 7, 7, 7, 7],
        left_nums: [0, 8, 8, 8, 8, 8, 8, 8],
        ..Puzzle::default()
    };
    p.tiles[0][0] = Tile::Monster;
    // row 1 cannot take 8 walls from 8 empty cells and leave the monster one exit
    // below: its exit is to the right
    assert_eq!(solve(&p), vec![0x00ff_ffff_ffff_ffff]);
    // with two open neighbours the only candidate is rejected
    p.left_nums = [0, 7, 8, 8, 8, 8, 8, 8];
    p.top_nums = [6, 7, 7, 7, 7, 7, 7, 7];
    assert_eq!(solve(&p), Vec::<u64>::new());
}

#[test]
fn solve_recursive_keeps_what_is_there_and_adds_no_duplicate() {
    let p = one_gap();
    let all = solve(&p);
    let mut found = vec![all[3], 42];
    BackTracker::solve_recursive(&p, p.top_nums, 0, &mut found);
    let mut expected = vec![all[3], 42];
    expected.extend(all.iter().filter(|&&w| w != all[3]));
    assert_eq!(found, expected);
}

#[test]
fn solve_recursive_from_a_lower_row() {
    // rows 0..6 are walled already; the last row takes its 8 walls
    let mut p = Puzzle { top_nums: [8; 8], left_nums: [8; 8], ..Puzzle::default() };
    for r in 0..7 {
        p = p.apply_walls(r, 0xff);
    }
    let mut found = Vec::new();
    BackTracker::solve_recursive(&p, [1; 8], 7, &mut found);
    assert_eq!(found, vec![u64::MAX]);
    // a column that wants no more walls leaves the row short
    let mut none = Vec::new();
    BackTracker::solve_recursive(&p, [1, 1, 1, 1, 0, 1, 1, 1], 7, &mut none);
    assert_eq!(none, Vec::<u64>::new());
}

#[test]
fn solutions_come_from_the_smallest_to_the_largest() {
    for p in [one_gap(), shaft(0), shaft(1)] {
        let found = solve(&p);
        for pair in found.windows(2) {
            assert!(pair[0] < pair[1]);
        }
    }
}
