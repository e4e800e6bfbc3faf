use vstd::prelude::*;

use crate::board::TilePos;

verus! {

/// Bit `i` of `m`, counted from the least significant bit.
pub open spec fn bit(m: u128, i: int) -> bool {
    0 <= i < 128 && (m >> (i as u128)) & 1u128 == 1u128
}

/// The number of set bits of `m` below position `n`.
pub open spec fn ones_below(m: u128, n: int) -> nat
    decreases n,
{
    if n <= 0 {
        0
    } else {
        ones_below(m, n - 1) + if bit(m, n - 1) {
            1nat
        } else {
            0nat
        }
    }
}

/// The number of set bits of `m`.
pub open spec fn ones(m: u128) -> nat {
    ones_below(m, 128)
}

/// `m` has no set bit at position `n` or above.
pub open spec fn fits(m: u128, n: int) -> bool {
    forall|i: int| n <= i < 128 ==> !bit(m, i)
}

/// Relies on `u128::count_ones`: the number of ones in the binary
/// representation of the argument.
#[verifier::external_body]
pub(crate) fn count_ones(m: u128) -> (r: u32)
    ensures
        r == ones(m),
{
    m.count_ones()
}

pub proof fn lemma_ones_below_bound(m: u128, n: int)
    requires
        0 <= n,
    ensures
        ones_below(m, n) <= n,
    decreases n,
{
    if n > 0 {
        lemma_ones_below_bound(m, n - 1);
    }
}

pub proof fn lemma_ones_bound(m: u128)
    ensures
        ones(m) <= 128,
{
    lemma_ones_below_bound(m, 128);
}

pub proof fn lemma_bit_or_single(t: u128, i: u128, j: u128)
    requires
        i < 128,
        j < 128,
    ensures
        ((t | (1u128 << i)) >> j) & 1u128 == 1u128 <==> ((t >> j) & 1u128 == 1u128 || i == j),
{
    assert((((t | (1u128 << i)) >> j) & 1u128 == 1u128 <==> ((t >> j) & 1u128 == 1u128 || i == j))) by (bit_vector)
        requires
            i < 128, j < 128,
    ;
}

pub proof fn lemma_bit_zero(j: u128)
    requires
        j < 128,
    ensures
        (0u128 >> j) & 1u128 != 1u128,
{
    assert(((0u128 >> j) & 1u128 != 1u128)) by (bit_vector)
        requires
            j < 128,
    ;
}

pub proof fn lemma_bit_test(m: u128, i: u128)
    requires
        i < 128,
    ensures
        (m & (1u128 << i) != 0u128) <==> ((m >> i) & 1u128 == 1u128),
{
    assert(((m & (1u128 << i) != 0u128) <==> ((m >> i) & 1u128 == 1u128))) by (bit_vector)
        requires
            i < 128,
    ;
}

pub proof fn lemma_or_single_bound(t: u128, k: u128)
    requires
        k < 127,
        t < (1u128 << k),
    ensures
        (t | (1u128 << k)) < (1u128 << (k + 1)),
        t < (1u128 << (k + 1)),
{
    assert((t | (1u128 << k)) < (1u128 << (k + 1)) && t < (1u128 << (k + 1))) by (bit_vector)
        requires
            k < 127, t < (1u128 << k),
    ;
}

/// The mask over `boundary` of the tiles of `tiles`, built from the first
/// `n` boundary positions.
pub open spec fn mask_upto(tiles: Seq<TilePos>, boundary: Seq<TilePos>, n: int) -> u128
    decreases n,
{
    if n <= 0 {
        0
    } else if tiles.contains(boundary[n - 1]) {
        mask_upto(tiles, boundary, n - 1) | (1u128 << ((n - 1) as u128))
    } else {
        mask_upto(tiles, boundary, n - 1)
    }
}

/// Bit `i` is set exactly when the `i`-th boundary tile is among `tiles`.
pub open spec fn mask_of(tiles: Seq<TilePos>, boundary: Seq<TilePos>) -> u128 {
    mask_upto(tiles, boundary, boundary.len() as int)
}

/// The boundary tiles, in boundary order, whose bits among the first `n` are set.
pub open spec fn tiles_upto(bits: u128, boundary: Seq<TilePos>, n: int) -> Seq<TilePos>
    decreases n,
{
    if n <= 0 {
        seq![]
    } else if bit(bits, n - 1) {
        tiles_upto(bits, boundary, n - 1).push(boundary[n - 1])
    } else {
        tiles_upto(bits, boundary, n - 1)
    }
}

pub open spec fn tiles_of(bits: u128, boundary: Seq<TilePos>) -> Seq<TilePos> {
    tiles_upto(bits, boundary, boundary.len() as int)
}

pub proof fn lemma_mask_upto_bits(tiles: Seq<TilePos>, boundary: Seq<TilePos>, n: int)
    requires
        0 <= n <= boundary.len(),
        n <= 128,
    ensures
        forall|j: int|
            0 <= j < 128 ==> (bit(#[trigger] mask_upto(tiles, boundary, n), j) <==> (j < n
                && tiles.contains(boundary[j]))),
    decreases n,
{
    if n > 0 {
        lemma_mask_upto_bits(tiles, boundary, n - 1);
        let t = mask_upto(tiles, boundary, n - 1);
        assert forall|j: int| 0 <= j < 128 implies (bit(mask_upto(tiles, boundary, n), j) <==> (j
            < n && tiles.contains(boundary[j]))) by {
            assert(bit(t, j) <==> (j < n - 1 && tiles.contains(boundary[j])));
            if tiles.contains(boundary[n - 1]) {
                lemma_bit_or_single(t, (n - 1) as u128, j as u128);
            }
        }
    } else {
        assert forall|j: int| 0 <= j < 128 implies !bit(mask_upto(tiles, boundary, n), j) by {
            lemma_bit_zero(j as u128);
        }
    }
}

pub proof fn lemma_mask_upto_bound(tiles: Seq<TilePos>, boundary: Seq<TilePos>, n: int)
    requires
        0 <= n <= boundary.len(),
        n <= 127,
    ensures
        mask_upto(tiles, boundary, n) < (1u128 << (n as u128)),
    decreases n,
{
    if n > 0 {
        lemma_mask_upto_bound(tiles, boundary, n - 1);
        lemma_or_single_bound(mask_upto(tiles, boundary, n - 1), (n - 1) as u128);
    } else {
        assert((0u128) < (1u128 << 0u128)) by (bit_vector);
    }
}

pub proof fn lemma_tiles_upto_contains(bits: u128, boundary: Seq<TilePos>, n: int, x: TilePos)
    requires
        0 <= n <= boundary.len(),
    ensures
        tiles_upto(bits, boundary, n).contains(x) <==> exists|i: int|
            0 <= i < n && bit(bits, i) && boundary[i] == x,
    decreases n,
{
    if n > 0 {
        lemma_tiles_upto_contains(bits, boundary, n - 1, x);
        let prev = tiles_upto(bits, boundary, n - 1);
        let cur = tiles_upto(bits, boundary, n);
        if exists|i: int| 0 <= i < n && bit(bits, i) && boundary[i] == x {
            let i = choose|i: int| 0 <= i < n && bit(bits, i) && boundary[i] == x;
            if i < n - 1 {
                assert(prev.contains(x));
                if bit(bits, n - 1) {
                    let j = choose|j: int| 0 <= j < prev.len() && prev[j] == x;
                    assert(cur[j] == x);
                }
            } else {
                assert(cur[cur.len() - 1] == x);
            }
        }
        if cur.contains(x) {
            let k = choose|k: int| 0 <= k < cur.len() && #[trigger] cur[k] == x;
            if k < prev.len() {
                assert(prev[k] == x);
                assert(prev.contains(x));
            } else {
                assert(bit(bits, n - 1) && boundary[n - 1] == x);
            }
        }
    }
}

/// Looks for `x` in `v`.
pub fn contains_pos(v: &[TilePos], x: TilePos) -> (r: bool)
    ensures
        r == v@.contains(x),
{
    let mut i: usize = 0;
    while i < v.len()
        invariant
            i <= v@.len(),
            forall|k: int| 0 <= k < i ==> v@[k] != x,
        decreases v@.len() - i,
    {
        if v[i] == x {
            assert(v@[i as int] == x);
            return true;
        }
        i = i + 1;
    }
    false
}

/// The mask over `covered_boundary` of the tiles of `tile_vec`: bit `i` is
/// set exactly when the `i`-th boundary tile is in `tile_vec`.
pub fn tile_vec_to_u128(tile_vec: &[TilePos], covered_boundary: &[TilePos]) -> (r: u128)
    requires
        covered_boundary@.len() <= 128,
    ensures
        r == mask_of(tile_vec@, covered_boundary@),
        forall|j: int|
            0 <= j < 128 ==> (bit(r, j) <==> (j < covered_boundary@.len() && tile_vec@.contains(
                covered_boundary@[j]))),
{
    let mut tracker: u128 = 0;
    let mut i: usize = 0;
    while i < covered_boundary.len()
        invariant
            i <= covered_boundary@.len() <= 128,
            tracker == mask_upto(tile_vec@, covered_boundary@, i as int),
        decreases covered_boundary@.len() - i,
    {
        if contains_pos(tile_vec, covered_boundary[i]) {
            tracker = tracker | (1u128 << (i as u128));
        }
        i = i + 1;
    }
    proof {
        lemma_mask_upto_bits(tile_vec@, covered_boundary@, covered_boundary@.len() as int);
    }
    tracker
}

/// The tiles of `covered_boundary`, in order, whose bit is set in `bits`.
pub fn u128_to_tile_vec(bits: u128, covered_boundary: &[TilePos]) -> (r: Vec<TilePos>)
    requires
        covered_boundary@.len() <= 128,
    ensures
        r@ == tiles_of(bits, covered_boundary@),
{
    let mut tile_vec: Vec<TilePos> = Vec::new();
    let mut i: usize = 0;
    while i < covered_boundary.len()
        invariant
            i <= covered_boundary@.len() <= 128,
            tile_vec@ == tiles_upto(bits, covered_boundary@, i as int),
        decreases covered_boundary@.len() - i,
    {
        proof {
            lemma_bit_test(bits, i as u128);
        }
        if bits & (1u128 << (i as u128)) != 0 {
            tile_vec.push(covered_boundary[i]);
        }
        i = i + 1;
    }
    tile_vec
}

/// The 32-bit mask over a boundary of at most 32 tiles.
pub fn tile_vec_to_u32(tile_vec: &Vec<TilePos>, covered: &Vec<TilePos>) -> (r: u32)
    requires
        covered@.len() <= 32,
    ensures
        r as u128 == mask_of(tile_vec@, covered@),
{
    let m = tile_vec_to_u128(tile_vec.as_slice(), covered.as_slice());
    proof {
        lemma_mask_upto_bound(tile_vec@, covered@, covered@.len() as int);
        let n = covered@.len() as u128;
        assert(n <= 32 ==> (1u128 << n) <= 0x1_0000_0000u128) by (bit_vector);
    }
    m as u32
}

/// The tiles of a boundary of at most 32 tiles whose bit is set in `bits`.
pub fn u32_to_tile_vec(bits: &u32, covered: &Vec<TilePos>) -> (r: Vec<TilePos>)
    requires
        covered@.len() <= 32,
    ensures
        r@ == tiles_of(*bits as u128, covered@),
{
    u128_to_tile_vec(*bits as u128, covered.as_slice())
}

/// Encoding a set of boundary tiles as a mask and decoding the mask gives
/// back the same set of tiles.
pub proof fn lemma_mask_round_trip(tiles: Seq<TilePos>, boundary: Seq<TilePos>)
    requires
        boundary.len() <= 128,
        forall|x: TilePos| tiles.contains(x) ==> boundary.contains(x),
    ensures
        tiles_of(mask_of(tiles, boundary), boundary).to_set() == tiles.to_set(),
{
    let m = mask_of(tiles, boundary);
    let n = boundary.len() as int;
    lemma_mask_upto_bits(tiles, boundary, n);
    assert forall|x: TilePos| #[trigger]
        tiles_of(m, boundary).to_set().contains(x) <==> tiles.to_set().contains(x) by {
        lemma_tiles_upto_contains(m, boundary, n, x);
        if tiles.contains(x) {
            let i = choose|i: int| 0 <= i < boundary.len() && boundary[i] == x;
            assert(bit(m, i));
        }
    }
    assert(tiles_of(m, boundary).to_set() =~= tiles.to_set());
}

} // verus!
