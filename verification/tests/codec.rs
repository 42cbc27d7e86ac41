use dungeon_solver::codec::{ParseError, RECORD_LEN};
use dungeon_solver::puzzle::{Puzzle, Tile};

fn minotaur() -> Puzzle {
    let mut tiles = [[Tile::Empty; 8]; 8];
    tiles[1][1] = Tile::Treasure;
    tiles[3][5] = Tile::Treasure;
    tiles[7][0] = Tile::Monster;
    Puzzle {
        tiles,
        top_nums: [7, 3, 2, 2, 4, 4, 3, 2],
        left_nums: [5, 2, 2, 4, 4, 5, 2, 3],
        seed: Some(24737362),
    }
}

fn insectoid() -> Puzzle {
    let mut tiles = [[Tile::Empty; 8]; 8];
    for (r, c) in [(0, 6), (1, 1), (2, 7), (4, 1), (4, 6), (6, 0), (6, 6), (7, 2)] {
        tiles[r][c] = Tile::Monster;
    }
    Puzzle {
        tiles,
        top_nums: [6, 4, 5, 2, 3, 6, 1, 7],
        left_nums: [4, 4, 4, 6, 4, 4, 5, 3],
        seed: None,
    }
}

fn encode(p: &Puzzle) -> Vec<u8> {
    let mut out = Vec::new();
    p.serialize(&mut out);
    out
}

#[test]
fn record_is_26_bytes() {
    assert_eq!(RECORD_LEN, 26);
    assert_eq!(encode(&minotaur()).len(), 26);
    assert_eq!(encode(&Puzzle::default()).len(), 26);
}

#[test]
fn serialize_appends_to_what_is_there() {
    let mut out = vec![0xaa, 0xbb];
    minotaur().serialize(&mut out);
    insectoid().serialize(&mut out);
    assert_eq!(out.len(), 2 + 26 + 26);
    assert_eq!(&out[..2], &[0xaa, 0xbb]);
    assert_eq!(Puzzle::deserialize(&out[2..28]), Ok(minotaur()));
    assert_eq!(Puzzle::deserialize(&out[28..]), Ok(insectoid()));
}

#[test]
fn record_bytes_of_a_known_puzzle() {
    let bytes = encode(&minotaur());
    // seed + 1 = 24737363 = 0x0179_7653
    assert_eq!(&bytes[0..4], &[0x53, 0x76, 0x79, 0x01]);
    // clues 7 3 2 2 4 4 3 2 5 2 2 4 4 5 2 3, three bits each, first highest:
    // 111 011 010 010 100 100 011 010 101 010 010 100 100 101 010 011
    let clues: u64 = 0b111_011_010_010_100_100_011_010_101_010_010_100_100_101_010_011;
    assert_eq!(&bytes[4..10], &clues.to_le_bytes()[0..6]);
    // monster at (7, 0): cell 56, bit 7
    assert_eq!(&bytes[10..18], &[0x80, 0, 0, 0, 0, 0, 0, 0]);
    // treasures at (1, 1) and (3, 5): cells 9 and 29, bits 54 and 34
    let treasures: u64 = (1 << 54) | (1 << 34);
    assert_eq!(&bytes[18..26], &treasures.to_le_bytes());
}

#[test]
fn empty_puzzle_is_all_zero() {
    assert_eq!(encode(&Puzzle::default()), vec![0u8; 26]);
    assert_eq!(Puzzle::deserialize(&[0u8; 26]), Ok(Puzzle::default()));
}

#[test]
fn round_trip_keeps_the_puzzle() {
    for p in [minotaur(), insectoid(), Puzzle::default()] {
        assert_eq!(Puzzle::deserialize(&encode(&p)), Ok(p));
    }
}

#[test]
fn round_trip_with_seed_zero() {
    let mut p = insectoid();
    p.seed = Some(0);
    let bytes = encode(&p);
    assert_eq!(&bytes[0..4], &[1, 0, 0, 0]);
    assert_eq!(Puzzle::deserialize(&bytes), Ok(p));
}

#[test]
fn first_cell_is_the_highest_bit() {
    let mut p = Puzzle::default();
    p.tiles[0][0] = Tile::Monster;
    p.tiles[7][7] = Tile::Treasure;
    let bytes = encode(&p);
    assert_eq!(&bytes[10..18], &[0, 0, 0, 0, 0, 0, 0, 0x80]);
    assert_eq!(&bytes[18..26], &[1, 0, 0, 0, 0, 0, 0, 0]);
    assert_eq!(Puzzle::deserialize(&bytes), Ok(p));
}

#[test]
fn clues_above_seven_are_stored_as_seven() {
    let mut p = minotaur();
    p.top_nums = [8, 9, 255, 7, 0, 1, 2, 3];
    let back = Puzzle::deserialize(&encode(&p)).unwrap();
    assert_eq!(back.top_nums, [7, 7, 7, 7, 0, 1, 2, 3]);
    assert_eq!(back.left_nums, p.left_nums);
    assert_eq!(back.tiles, p.tiles);
    assert_eq!(back.seed, p.seed);
}

#[test]
fn walls_are_not_stored() {
    let mut p = minotaur();
    p.tiles[0][3] = Tile::Wall;
    let back = Puzzle::deserialize(&encode(&p)).unwrap();
    assert_eq!(back, minotaur());
}

#[test]
fn the_largest_seed_reads_back_as_none() {
    let mut p = minotaur();
    p.seed = Some(u32::MAX);
    let bytes = encode(&p);
    assert_eq!(&bytes[0..4], &[0, 0, 0, 0]);
    assert_eq!(Puzzle::deserialize(&bytes).unwrap().seed, None);
}

#[test]
fn a_cell_marked_twice_is_a_monster() {
    let mut bytes = [0u8; 26];
    bytes[17] = 0x80;
    bytes[25] = 0xc0;
    let p = Puzzle::deserialize(&bytes).unwrap();
    assert_eq!(p.tiles[0][0], Tile::Monster);
    assert_eq!(p.tiles[0][1], Tile::Treasure);
    assert_eq!(p.tiles[0][2], Tile::Empty);
}

#[test]
fn wrong_length_is_malformed() {
    assert_eq!(Puzzle::deserialize(&[]), Err(ParseError::MalformedRecord));
    assert_eq!(Puzzle::deserialize(&[0u8; 25]), Err(ParseError::MalformedRecord));
    assert_eq!(Puzzle::deserialize(&[0u8; 27]), Err(ParseError::MalformedRecord));
    assert_eq!(Puzzle::deserialize(&[0u8; 52]), Err(ParseError::MalformedRecord));
}
