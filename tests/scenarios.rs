use minesweeper::bignum::Big;
use minesweeper::bits::{tile_vec_to_u128, tile_vec_to_u32, u128_to_tile_vec, u32_to_tile_vec};
use minesweeper::board::TilePos;
use minesweeper::guesses::{bomb_count_weights, case_weight, choose_guess, sensible_ordering, Guess};
use minesweeper::scenarios::{legal_bomb_candidates, legal_scenario_info, validate, validate_final};

fn p(col: usize, row: usize) -> TilePos {
    TilePos { col, row }
}

fn brute_force(constraints: &Vec<(u8, u128)>, size: usize) -> Vec<u128> {
    let mut out = vec![];
    for m in 0..(1u128 << size) {
        if constraints
            .iter()
            .all(|&(n, s)| (m & s).count_ones() == n as u32)
        {
            out.push(m);
        }
    }
    out
}

fn sorted(mut v: Vec<u128>) -> Vec<u128> {
    v.sort();
    v
}

#[test]
fn mask_round_trip() {
    let boundary = vec![p(0, 0), p(1, 0), p(2, 0), p(2, 1), p(2, 2)];
    let tiles = vec![p(2, 1), p(0, 0), p(2, 2)];
    let mask = tile_vec_to_u128(&tiles, &boundary);
    assert_eq!(mask, 0b11001);
    assert_eq!(u128_to_tile_vec(mask, &boundary), vec![p(0, 0), p(2, 1), p(2, 2)]);
    let small = tile_vec_to_u32(&tiles, &boundary);
    assert_eq!(small, 0b11001);
    assert_eq!(u32_to_tile_vec(&small, &boundary), vec![p(0, 0), p(2, 1), p(2, 2)]);
    assert_eq!(tile_vec_to_u128(&[p(9, 9)], &boundary), 0);
}

#[test]
fn validate_checks_partial_constraints() {
    let cs = vec![(1u8, 0b0011u128), (2u8, 0b0110u128)];
    // only bits 0 and 1 decided
    assert!(validate(0b10, &cs, 0b0011));
    // the second constraint could no longer reach two bombs
    assert!(!validate(0b01, &cs, 0b0011));
    assert!(!validate(0b11, &cs, 0b0011));
    assert!(!validate(0b00, &cs, 0b0011));
    // bit 3 decided alone: neither constraint is touched
    assert!(validate(0b1000, &cs, 0b1000));
    // too few undecided tiles left for the second constraint
    assert!(!validate(0b0000, &cs, 0b0111));
    assert!(validate_final(0b0110, &cs));
    assert!(!validate_final(0b0101, &cs));
}

#[test]
fn enumerator_matches_brute_force() {
    let cs = vec![
        (1u8, 0b0000_0111u128),
        (2u8, 0b0001_1100u128),
        (1u8, 0b0111_0000u128),
        (2u8, 0b1100_0011u128),
    ];
    assert_eq!(sorted(legal_bomb_candidates(&cs, 8)), brute_force(&cs, 8));
    let cs = vec![(3u8, 0b1111_1111_0000u128), (1u8, 0b1000_0001_1000u128)];
    assert_eq!(sorted(legal_bomb_candidates(&cs, 12)), brute_force(&cs, 12));
    assert_eq!(sorted(legal_bomb_candidates(&vec![], 3)), brute_force(&vec![], 3));
    assert_eq!(legal_bomb_candidates(&vec![(2u8, 0b1u128)], 1), Vec::<u128>::new());
}

#[test]
fn enumerator_over_many_chunks() {
    // forty tiles, every one pinned by a constraint: one placement only
    let mut cs = vec![];
    let mut expected: u128 = 0;
    for i in 0..40 {
        let bomb = i % 3 == 0;
        cs.push((bomb as u8, 1u128 << i));
        if bomb {
            expected |= 1u128 << i;
        }
    }
    cs.push((14u8, (1u128 << 40) - 1));
    assert_eq!(legal_bomb_candidates(&cs, 40), vec![expected]);
    // pairs of neighbours that share one bomb: two choices each
    let mut cs = vec![];
    for i in 0..17 {
        cs.push((1u8, 0b11u128 << (2 * i)));
    }
    assert_eq!(legal_bomb_candidates(&cs, 34).len(), 1 << 17);
}

#[test]
fn scenario_counts() {
    // one bomb among three tiles
    let cs = vec![(1u8, 0b111u128)];
    let (per_tile, totals, n) = legal_scenario_info(&cs, 3);
    assert_eq!(n, 3);
    assert_eq!(totals[1], 3);
    assert_eq!(totals.iter().sum::<usize>(), 3);
    assert_eq!(per_tile.len(), 3);
    for row in &per_tile {
        assert_eq!(row[1], 1);
        assert_eq!(row.iter().sum::<usize>(), 1);
    }
    let cs = vec![(1u8, 0b011u128), (1u8, 0b110u128)];
    let (per_tile, totals, n) = legal_scenario_info(&cs, 3);
    assert_eq!(n, 2);
    assert_eq!(totals[1], 1);
    assert_eq!(totals[2], 1);
    assert_eq!(per_tile[1][1], 1);
    assert_eq!(per_tile[0][2], 1);
    assert_eq!(per_tile[2][2], 1);
}

fn big(x: u128) -> Big {
    Big::from_u128(x)
}

fn check_weight(o: usize, nb: usize, lo: usize, num: u128, den: u128) {
    let (n, d) = case_weight(o, nb, lo);
    assert!(n.eq(&big(num)), "numerator for {o}, {nb}, {lo}");
    assert!(d.eq(&big(den)), "denominator for {o}, {nb}, {lo}");
}

#[test]
fn case_weight_values() {
    check_weight(5, 10, 5, 1, 1);
    check_weight(6, 10, 5, 5, 6);
    check_weight(7, 10, 5, 20, 42);
    check_weight(11, 10, 5, 0, 1);
    // C(10, 1) / C(10, 0): more bombs off the boundary can weigh more
    check_weight(1, 10, 0, 10, 1);
    // far past 128 bits, still exact and positive
    let (n, d) = case_weight(100, 400, 0);
    assert!(big(0).lt(&n));
    assert!(big(u128::MAX).lt(&n));
    assert!(big(u128::MAX).lt(&d));
}

#[test]
fn case_weight_falls_past_the_middle() {
    let nb: u128 = 10;
    let mut last = (1u128, 1u128);
    let mut num: u128 = 1;
    let mut den: u128 = 1;
    for o in 5u128..=10 {
        if o > 5 {
            num *= nb - o + 1;
            den *= o;
        }
        check_weight(o as usize, nb as usize, 5, num, den);
        assert!(num * last.1 <= last.0 * den);
        last = (num, den);
    }
}

#[test]
fn single_tile_boundary_probability() {
    // one boundary tile that must hold a bomb; as many bombs left elsewhere
    // as tiles off the boundary
    let cs = vec![(1u8, 0b1u128)];
    let (per_tile, totals, _) = legal_scenario_info(&cs, 1);
    let ws = bomb_count_weights(&totals, 3, 3).unwrap();
    assert!(ws[1].eq(&big(1)));
    for k in 0..129 {
        if k != 1 {
            assert!(ws[k].eq(&big(0)));
        }
    }
    // every legal placement has the bomb on the tile: safety 1 - 1/1
    assert_eq!((per_tile[0][1], totals[1]), (1, 1));
    let guess = choose_guess(&per_tile, &totals, &ws, &vec![p(0, 0)], 3, 3);
    assert_eq!(guess, Guess::Elsewhere);
}

#[test]
fn weights_follow_the_bombs_left_off_the_boundary() {
    // two boundary tiles, either one bomb or two; four tiles off the
    // boundary and two bombs left
    let mut totals = vec![0usize; 129];
    totals[1] = 2;
    totals[2] = 1;
    let ws = bomb_count_weights(&totals, 2, 4).unwrap();
    // one bomb on the boundary leaves one for four tiles: C(4,1) = 4 ways,
    // two leave none: C(4,0) = 1 way
    assert!(ws[1].eq(&big(4)));
    assert!(ws[2].eq(&big(1)));
    assert!(ws[0].eq(&big(0)));
    assert!(bomb_count_weights(&vec![0usize; 129], 2, 4).is_none());
}

#[test]
fn big_arithmetic() {
    let a = big(u128::MAX);
    let b = a.add(&big(1)).mul_small(3);
    let c = big(1u128 << 127).mul_small(6);
    assert!(b.eq(&c));
    assert!(a.lt(&b));
    assert!(!b.lt(&a));
}

#[test]
fn choose_guess_prefers_the_safest_boundary_tile() {
    let mut totals = vec![0usize; 129];
    totals[1] = 3;
    let ws = bomb_count_weights(&totals, 1, 0).unwrap();
    let mut a = vec![0usize; 129];
    a[1] = 2;
    let mut b = vec![0usize; 129];
    b[1] = 1;
    let boundary = vec![p(0, 0), p(1, 0)];
    assert_eq!(
        choose_guess(&vec![a.clone(), b.clone()], &totals, &ws, &boundary, 1, 0),
        Guess::Boundary(1)
    );
    // equal odds: the earlier tile
    assert_eq!(
        choose_guess(&vec![b.clone(), b.clone()], &totals, &ws, &vec![p(3, 0), p(1, 2)], 1, 0),
        Guess::Boundary(1)
    );
}

#[test]
fn ordering_keeps_every_tile() {
    let tiles = vec![p(0, 0), p(5, 5), p(1, 0), p(4, 5), p(2, 0), p(3, 5), p(0, 1)];
    let ordered = sensible_ordering(tiles.clone());
    let mut a = ordered.clone();
    let mut b = tiles.clone();
    a.sort();
    b.sort();
    assert_eq!(a, b);
    // close tiles end up next to each other
    let left = ordered
        .iter()
        .position(|t| t.row == 5)
        .unwrap();
    assert!(ordered[left..left + 3].iter().all(|t| t.row == 5));
    assert_eq!(sensible_ordering(vec![p(1, 1)]), vec![p(1, 1)]);
}

#[test]
fn enumerator_at_full_width() {
    // 128 tiles in sixteen groups of eight: no bomb in any group but the
    // last, which holds exactly one
    let mut cs = vec![];
    for i in 0..15 {
        cs.push((0u8, 0xffu128 << (8 * i)));
    }
    cs.push((1u8, 0xffu128 << 120));
    let mut found = sorted(legal_bomb_candidates(&cs, 128));
    let expected: Vec<u128> = (120..128).map(|i| 1u128 << i).collect();
    found.dedup();
    assert_eq!(found, expected);
}
