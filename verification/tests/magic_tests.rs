use chess_engine::magic::{
    get_bishop_moves, get_magic_index, get_rook_moves, slider_attacks_walk, slider_mask, Tables,
};

/// Walks every subset of a mask with the carry trick.
fn subsets(mask: u64) -> Vec<u64> {
    let mut out = Vec::new();
    let mut s: u64 = 0;
    loop {
        out.push(s);
        s = s.wrapping_sub(mask) & mask;
        if s == 0 {
            break;
        }
    }
    out
}

#[test]
fn rook_lookup_matches_ray_walk_on_every_mask_subset() {
    let tables = Tables::new();
    for &sq in &[0usize, 28, 63] {
        let mask = slider_mask(false, sq);
        for occ in subsets(mask) {
            assert_eq!(
                get_rook_moves(&tables, sq as i32, &occ),
                slider_attacks_walk(false, occ, sq)
            );
        }
    }
}

#[test]
fn bishop_lookup_matches_ray_walk_on_every_mask_subset() {
    let tables = Tables::new();
    for &sq in &[0usize, 27, 63] {
        let mask = slider_mask(true, sq);
        for occ in subsets(mask) {
            assert_eq!(
                get_bishop_moves(&tables, sq as i32, &occ),
                slider_attacks_walk(true, occ, sq)
            );
        }
    }
}

#[test]
fn lookup_matches_ray_walk_under_full_occupancies() {
    let tables = Tables::new();
    let occs = [
        0u64,
        0xFFFF00000000FFFF,
        0x00FF00FF00FF00FF,
        0x8142241818244281,
        0x0123456789ABCDEF,
    ];
    for sq in 0..64usize {
        for &occ in &occs {
            assert_eq!(
                get_rook_moves(&tables, sq as i32, &occ),
                slider_attacks_walk(false, occ, sq)
            );
            assert_eq!(
                get_bishop_moves(&tables, sq as i32, &occ),
                slider_attacks_walk(true, occ, sq)
            );
        }
    }
}

#[test]
fn rook_attacks_from_a1_on_an_empty_board() {
    let tables = Tables::new();
    // file a plus rank 1, excluding a1 itself
    let expected: u64 = 0x01010101010101FE;
    assert_eq!(get_rook_moves(&tables, 0, &0u64), expected);
}

#[test]
fn magic_index_is_the_hashed_masked_occupancy() {
    let mask = 0x0101010101017E00u64;
    let magic = 0x8000400020001000u64;
    let occ = 0xFFFF_0000_FFFF_0000u64;
    let expected = ((occ & mask).wrapping_mul(magic) >> 52) as usize;
    assert_eq!(get_magic_index(magic, 52, mask, &occ), expected);
}
