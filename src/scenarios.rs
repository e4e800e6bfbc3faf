use vstd::prelude::*;

use crate::bits::{bit, count_ones, fits, lemma_ones_bound, ones, ones_below};
use crate::seq_facts::{lemma_push_contains, lemma_push_keeps, lemma_take_step};

verus! {

/// "Exactly `c.0` bombs among the boundary tiles whose bits are set in `c.1`."
pub type Constraint = (u8, u128);

pub open spec fn satisfies(b: u128, c: Constraint) -> bool {
    ones(b & c.1) == c.0
}

pub open spec fn satisfies_all(b: u128, cs: Seq<Constraint>) -> bool {
    forall|i: int| 0 <= i < cs.len() ==> satisfies(b, #[trigger] cs[i])
}

/// A bomb placement on a boundary of `len` tiles that meets every constraint.
pub open spec fn legal(b: u128, cs: Seq<Constraint>, len: int) -> bool {
    fits(b, len) && satisfies_all(b, cs)
}

/// With only the bits of `mask` decided, `b` can still be completed to meet `c`:
/// exactly when `c` lies inside `mask`, and otherwise neither too many bombs
/// nor too few undecided tiles.
pub open spec fn partial_ok(b: u128, c: Constraint, mask: u128) -> bool {
    if mask & c.1 == c.1 {
        ones(b & c.1) == c.0
    } else {
        ones(b & c.1) <= c.0 && ones(b & c.1) + ones(!mask & c.1) >= c.0
    }
}

pub open spec fn partial_ok_all(b: u128, cs: Seq<Constraint>, mask: u128) -> bool {
    forall|i: int| 0 <= i < cs.len() ==> partial_ok(b, #[trigger] cs[i], mask)
}

/// Every constraint speaks of the first `len` boundary tiles only.
pub open spec fn constraints_fit(cs: Seq<Constraint>, len: int) -> bool {
    forall|i: int| 0 <= i < cs.len() ==> fits(#[trigger] cs[i].1, len)
}

/// `a` has no bit outside `m`.
pub open spec fn within(a: u128, m: u128) -> bool {
    a & !m == 0
}

proof fn lemma_bit_ops_one(x: u128, y: u128, i: u128)
    requires
        i < 128,
    ensures
        ((x & y) >> i) & 1 == 1 <==> ((x >> i) & 1 == 1 && (y >> i) & 1 == 1),
        ((x | y) >> i) & 1 == 1 <==> ((x >> i) & 1 == 1 || (y >> i) & 1 == 1),
        ((!x) >> i) & 1 == 1 <==> !((x >> i) & 1 == 1),
{
    assert(((x & y) >> i) & 1 == 1 <==> ((x >> i) & 1 == 1 && (y >> i) & 1 == 1)) by (bit_vector)
        requires
            i < 128,
    ;
    assert(((x | y) >> i) & 1 == 1 <==> ((x >> i) & 1 == 1 || (y >> i) & 1 == 1)) by (bit_vector)
        requires
            i < 128,
    ;
    assert(((!x) >> i) & 1 == 1 <==> !((x >> i) & 1 == 1)) by (bit_vector)
        requires
            i < 128,
    ;
}

pub proof fn lemma_bit_ops(x: u128, y: u128)
    ensures
        forall|i: int| 0 <= i < 128 ==> (#[trigger] bit(x & y, i) <==> (bit(x, i) && bit(y, i))),
        forall|i: int| 0 <= i < 128 ==> (#[trigger] bit(x | y, i) <==> (bit(x, i) || bit(y, i))),
        forall|i: int| 0 <= i < 128 ==> (#[trigger] bit(!x, i) <==> !bit(x, i)),
{
    assert forall|i: int| 0 <= i < 128 implies (#[trigger] bit(x & y, i) <==> (bit(x, i) && bit(
        y,
        i,
    ))) by {
        lemma_bit_ops_one(x, y, i as u128);
    }
    assert forall|i: int| 0 <= i < 128 implies (#[trigger] bit(x | y, i) <==> (bit(x, i) || bit(
        y,
        i,
    ))) by {
        lemma_bit_ops_one(x, y, i as u128);
    }
    assert forall|i: int| 0 <= i < 128 implies (#[trigger] bit(!x, i) <==> !bit(x, i)) by {
        lemma_bit_ops_one(x, y, i as u128);
    }
}

proof fn lemma_ones_below_mono(a: u128, b: u128, n: int)
    requires
        0 <= n <= 128,
        forall|i: int| 0 <= i < n && bit(a, i) ==> bit(b, i),
    ensures
        ones_below(a, n) <= ones_below(b, n),
    decreases n,
{
    if n > 0 {
        lemma_ones_below_mono(a, b, n - 1);
    }
}

proof fn lemma_ones_below_union(a: u128, b: u128, n: int)
    requires
        0 <= n <= 128,
        forall|i: int| 0 <= i < n ==> !(bit(a, i) && bit(b, i)),
    ensures
        ones_below(a | b, n) == ones_below(a, n) + ones_below(b, n),
    decreases n,
{
    if n > 0 {
        lemma_bit_ops(a, b);
        lemma_ones_below_union(a, b, n - 1);
        assert(bit(a | b, n - 1) <==> (bit(a, n - 1) || bit(b, n - 1)));
    }
}

/// Fewer set bits in a mask whose bits all lie in another.
pub proof fn lemma_ones_mono(a: u128, b: u128)
    requires
        forall|i: int| 0 <= i < 128 && bit(a, i) ==> bit(b, i),
    ensures
        ones(a) <= ones(b),
{
    lemma_ones_below_mono(a, b, 128);
}

/// Set bits add up over masks with no bit in common.
pub proof fn lemma_ones_union(a: u128, b: u128)
    requires
        forall|i: int| 0 <= i < 128 ==> !(bit(a, i) && bit(b, i)),
    ensures
        ones(a | b) == ones(a) + ones(b),
{
    lemma_ones_below_union(a, b, 128);
}

/// The decided part of a legal placement never fails a partial check.
pub proof fn lemma_restrict_partial_ok(m: u128, c: Constraint, mask: u128)
    requires
        satisfies(m, c),
    ensures
        partial_ok(m & mask, c, mask),
{
    let s = c.1;
    let a = (m & mask) & s;
    if mask & s == s {
        assert((m & mask) & s == m & s) by (bit_vector)
            requires
                mask & s == s,
        ;
    } else {
        lemma_bit_ops(m & mask, s);
        lemma_bit_ops(m, mask);
        lemma_bit_ops(m, s);
        lemma_bit_ops(!mask, s);
        lemma_bit_ops(mask, s);
        lemma_bit_ops(a, !mask & s);
        assert forall|i: int| 0 <= i < 128 && bit(a, i) implies bit(m & s, i) by {}
        lemma_ones_mono(a, m & s);
        assert forall|i: int| 0 <= i < 128 implies !(bit(a, i) && bit(!mask & s, i)) by {}
        lemma_ones_union(a, !mask & s);
        assert forall|i: int| 0 <= i < 128 && bit(m & s, i) implies bit(a | (!mask & s), i) by {}
        lemma_ones_mono(m & s, a | (!mask & s));
    }
}

/// Checks `bomb_subset`, decided on the bits of `mask`, against every
/// constraint: constraints inside `mask` must hold exactly, the others must
/// still be reachable.
pub fn validate(bomb_subset: u128, boundary_constraints: &Vec<Constraint>, mask: u128) -> (r: bool)
    ensures
        r == partial_ok_all(bomb_subset, boundary_constraints@, mask),
{
    let mut k: usize = 0;
    while k < boundary_constraints.len()
        invariant
            k <= boundary_constraints@.len(),
            forall|j: int| 0 <= j < k ==> partial_ok(bomb_subset, #[trigger] boundary_constraints@[j], mask),
        decreases boundary_constraints@.len() - k,
    {
        let (constraint, subset) = boundary_constraints[k];
        let bombs_in_subset = count_ones(bomb_subset & subset);
        proof {
            lemma_ones_bound(bomb_subset & subset);
            lemma_ones_bound(!mask & subset);
        }
        if mask & subset == subset {
            if bombs_in_subset != constraint as u32 {
                assert(!partial_ok(bomb_subset, boundary_constraints@[k as int], mask));
                return false;
            }
        } else if bombs_in_subset > constraint as u32 {
            assert(!partial_ok(bomb_subset, boundary_constraints@[k as int], mask));
            return false;
        } else {
            let non_assigned_in_subset = count_ones(!mask & subset);
            if bombs_in_subset + non_assigned_in_subset < constraint as u32 {
                assert(!partial_ok(bomb_subset, boundary_constraints@[k as int], mask));
                return false;
            }
        }
        k = k + 1;
    }
    true
}

/// Checks that `bomb_subset` meets every constraint exactly.
pub fn validate_final(bomb_subset: u128, boundary_constraints: &Vec<Constraint>) -> (r: bool)
    ensures
        r == satisfies_all(bomb_subset, boundary_constraints@),
{
    let mut k: usize = 0;
    while k < boundary_constraints.len()
        invariant
            k <= boundary_constraints@.len(),
            forall|j: int| 0 <= j < k ==> satisfies(bomb_subset, #[trigger] boundary_constraints@[j]),
        decreases boundary_constraints@.len() - k,
    {
        let (constraint, subset) = boundary_constraints[k];
        let bombs_in_subset = count_ones(bomb_subset & subset);
        if bombs_in_subset != constraint as u32 {
            assert(!satisfies(bomb_subset, boundary_constraints@[k as int]));
            return false;
        }
        k = k + 1;
    }
    true
}


proof fn lemma_prefix_eq(a: u128, b: u128, n: u128)
    requires
        n <= 127,
        forall|i: int| 0 <= i < n ==> bit(a, i) == bit(b, i),
    ensures
        a & (((1u128 << n) - 1) as u128) == b & (((1u128 << n) - 1) as u128),
    decreases n,
{
    if n == 0 {
        assert(a & (((1u128 << 0u128) - 1) as u128) == b & (((1u128 << 0u128) - 1) as u128)) by (bit_vector);
    } else {
        let p = (n - 1) as u128;
        lemma_prefix_eq(a, b, p);
        assert(bit(a, p as int) == bit(b, p as int));
        assert(a & (((1u128 << (p + 1)) - 1) as u128) == b & (((1u128 << (p + 1)) - 1) as u128)) by (bit_vector)
            requires
                p < 127,
                a & (((1u128 << p) - 1) as u128) == b & (((1u128 << p) - 1) as u128),
                ((a >> p) & 1 == 1) == ((b >> p) & 1 == 1),
        ;
    }
}

/// Two masks with the same bits are equal.
pub proof fn lemma_eq_from_bits(a: u128, b: u128)
    requires
        forall|i: int| 0 <= i < 128 ==> bit(a, i) == bit(b, i),
    ensures
        a == b,
{
    lemma_prefix_eq(a, b, 127);
    assert(bit(a, 127) == bit(b, 127));
    assert(a == b) by (bit_vector)
        requires
            a & (((1u128 << 127u128) - 1) as u128) == b & (((1u128 << 127u128) - 1) as u128),
            ((a >> 127u128) & 1 == 1) == ((b >> 127u128) & 1 == 1),
    ;
}

/// `within` read bit by bit.
pub proof fn lemma_within_bits(a: u128, m: u128)
    ensures
        within(a, m) <==> (forall|i: int| 0 <= i < 128 && bit(a, i) ==> bit(m, i)),
        within(a, m) <==> m & a == a,
{
    lemma_bit_ops(a, !m);
    lemma_bit_ops(m, 0);
    assert(within(a, m) <==> m & a == a) by (bit_vector);
    if forall|i: int| 0 <= i < 128 && bit(a, i) ==> bit(m, i) {
        assert forall|i: int| 0 <= i < 128 implies bit(a & !m, i) == bit(0u128, i) by {
            crate::bits::lemma_bit_zero(i as u128);
        }
        lemma_eq_from_bits(a & !m, 0);
    }
    if within(a, m) {
        assert forall|i: int| 0 <= i < 128 && bit(a, i) implies bit(m, i) by {
            crate::bits::lemma_bit_zero(i as u128);
            assert(!bit(a & !m, i));
        }
    }
}

/// The mask of the `k` bits from position `n` upwards.
pub open spec fn range_mask(n: u128, k: u128) -> u128 {
    (((1u128 << k) - 1) as u128) << n
}

proof fn lemma_shl_bit(x: u128, n: u128, j: u128)
    requires
        n < 128,
        j < 128,
    ensures
        ((x << n) >> j) & 1 == 1 <==> (j >= n && (x >> ((j - n) as u128)) & 1 == 1),
{
    assert(((x << n) >> j) & 1 == 1 <==> (j >= n && (x >> ((j - n) as u128)) & 1 == 1))
        by (bit_vector)
        requires
            n < 128,
            j < 128,
    ;
}

proof fn lemma_shr_bit(x: u128, n: u128, j: u128)
    requires
        n < 128,
        j < 128,
    ensures
        ((x >> n) >> j) & 1 == 1 <==> (j + n < 128 && (x >> ((j + n) as u128)) & 1 == 1),
{
    assert(((x >> n) >> j) & 1 == 1 <==> (j + n < 128 && (x >> ((j + n) as u128)) & 1 == 1))
        by (bit_vector)
        requires
            n < 128,
            j < 128,
    ;
}

proof fn lemma_low_bit(k: u128, j: u128)
    requires
        k <= 127,
        j < 128,
    ensures
        ((((1u128 << k) - 1) as u128) >> j) & 1 == 1 <==> j < k,
{
    assert(((((1u128 << k) - 1) as u128) >> j) & 1 == 1 <==> j < k) by (bit_vector)
        requires
            k <= 127,
            j < 128,
    ;
}

proof fn lemma_below_low_bit(i: u128, k: u128, j: u128)
    requires
        k <= 127,
        k <= j < 128,
        i <= (((1u128 << k) - 1) as u128),
    ensures
        (i >> j) & 1 != 1,
{
    assert((i >> j) & 1 != 1) by (bit_vector)
        requires
            k <= 127,
            k <= j < 128,
            i <= (((1u128 << k) - 1) as u128),
    ;
}

proof fn lemma_chunk_index(i: u128, n: u128, k: u128)
    requires
        n <= 127,
        k <= 127,
        n + k <= 128,
        i <= (((1u128 << k) - 1) as u128),
    ensures
        ((i << n) >> n) & (((1u128 << k) - 1) as u128) == i,
{
    let low = (((1u128 << k) - 1) as u128);
    let v = ((i << n) >> n) & low;
    lemma_bit_ops((i << n) >> n, low);
    assert forall|t: int| 0 <= t < 128 implies bit(v, t) == bit(i, t) by {
        let tt = t as u128;
        lemma_low_bit(k, tt);
        lemma_shr_bit(i << n, n, tt);
        if t + n < 128 {
            lemma_shl_bit(i, n, (t + n) as u128);
        }
        if t >= k {
            lemma_below_low_bit(i, k, tt);
        }
    }
    lemma_eq_from_bits(v, i);
}

proof fn lemma_range_mask_bits(n: u128, k: u128)
    requires
        n <= 127,
        k <= 127,
        n + k <= 128,
    ensures
        forall|j: int| 0 <= j < 128 ==> (#[trigger] bit(range_mask(n, k), j) <==> (n <= j < n + k)),
{
    assert forall|j: int| 0 <= j < 128 implies (#[trigger] bit(range_mask(n, k), j) <==> (n <= j
        < n + k)) by {
        lemma_shl_bit((((1u128 << k) - 1) as u128), n, j as u128);
        if j >= n {
            lemma_low_bit(k, (j - n) as u128);
        }
    }
}

proof fn lemma_range_mask(m: u128, i: u128, n: u128, k: u128)
    requires
        n <= 127,
        k <= 127,
        n + k <= 128,
    ensures
        ((m >> n) & (((1u128 << k) - 1) as u128)) << n == m & range_mask(n, k),
        (m >> n) & (((1u128 << k) - 1) as u128) <= (((1u128 << k) - 1) as u128),
        i <= (((1u128 << k) - 1) as u128) ==> within(i << n, range_mask(n, k)),
{
    let low = (((1u128 << k) - 1) as u128);
    let idx = (m >> n) & low;
    let mask = range_mask(n, k);
    assert(idx <= low) by (bit_vector)
        requires
            idx == (m >> n) & low,
    ;
    lemma_range_mask_bits(n, k);
    lemma_bit_ops(m >> n, low);
    lemma_bit_ops(m, mask);
    assert forall|j: int| 0 <= j < 128 implies bit(idx << n, j) == bit(m & mask, j) by {
        lemma_shl_bit(idx, n, j as u128);
        assert(bit(idx << n, j) <==> (j >= n && bit(idx, j - n)));
        assert(bit(m & mask, j) <==> (bit(m, j) && n <= j < n + k));
        if j >= n {
            let t = (j - n) as u128;
            lemma_shr_bit(m, n, t);
            lemma_low_bit(k, t);
            assert(bit(m >> n, t as int) <==> (t + n < 128 && bit(m, t + n)));
            assert(bit(low, t as int) <==> t < k);
            assert(bit(idx, t as int) <==> (bit(m >> n, t as int) && bit(low, t as int)));
        }
    }
    lemma_eq_from_bits(idx << n, m & mask);
    if i <= low {
        assert forall|j: int| 0 <= j < 128 && bit(i << n, j) implies bit(mask, j) by {
            lemma_shl_bit(i, n, j as u128);
            if j >= n + k {
                lemma_below_low_bit(i, k, (j - n) as u128);
            }
        }
        lemma_within_bits(i << n, mask);
    }
}

/// Every member is decided on `mask` only and meets each constraint that
/// lies inside `mask`.
pub open spec fn bin_sound(bin: Seq<u128>, mask: u128, cs: Seq<Constraint>) -> bool {
    forall|k: int| 0 <= k < bin.len() ==> #[trigger] sound_member(bin[k], mask, cs)
}

pub open spec fn sound_member(b: u128, mask: u128, cs: Seq<Constraint>) -> bool {
    &&& within(b, mask)
    &&& forall|j: int| 0 <= j < cs.len() && within(#[trigger] cs[j].1, mask) ==> satisfies(b, cs[j])
}

/// The part on `mask` of every legal placement is a member.
pub open spec fn bin_complete(bin: Seq<u128>, mask: u128, cs: Seq<Constraint>, len: int) -> bool {
    forall|m: u128| #[trigger] legal(m, cs, len) ==> bin.contains(m & mask)
}

proof fn lemma_partial_sound(b: u128, mask: u128, cs: Seq<Constraint>)
    requires
        within(b, mask),
        partial_ok_all(b, cs, mask),
    ensures
        sound_member(b, mask, cs),
{
    assert forall|j: int| 0 <= j < cs.len() && within(#[trigger] cs[j].1, mask) implies satisfies(
        b,
        cs[j],
    ) by {
        lemma_within_bits(cs[j].1, mask);
        assert(partial_ok(b, cs[j], mask));
    }
}

proof fn lemma_legal_partial(m: u128, mask: u128, cs: Seq<Constraint>, len: int)
    requires
        legal(m, cs, len),
    ensures
        partial_ok_all(m & mask, cs, mask),
{
    assert forall|j: int| 0 <= j < cs.len() implies partial_ok(m & mask, #[trigger] cs[j], mask) by {
        assert(satisfies(m, cs[j]));
        lemma_restrict_partial_ok(m, cs[j], mask);
    }
}

/// Every candidate for the bits from `nbits_left` upwards, `chunk` of them,
/// that passes the partial check.
fn chunk_candidates(
    boundary_constraints: &Vec<Constraint>,
    nbits_left: u128,
    chunk: u128,
    Ghost(len): Ghost<int>,
) -> (r: (Vec<u128>, u128))
    requires
        nbits_left <= 127,
        chunk <= 127,
        nbits_left + chunk <= 128,
    ensures
        r.1 == range_mask(nbits_left, chunk),
        bin_sound(r.0@, r.1, boundary_constraints@),
        bin_complete(r.0@, r.1, boundary_constraints@, len),
        r.0@.no_duplicates(),
{
    proof {
        assert(1u128 << chunk >= 1) by (bit_vector)
            requires
                chunk <= 127,
        ;
    }
    let max_chunk: u128 = (1u128 << chunk) - 1;
    let mask: u128 = max_chunk << nbits_left;
    let mut bin: Vec<u128> = Vec::new();
    let mut i: u128 = 0;
    loop
        invariant
            i <= max_chunk,
            max_chunk == (((1u128 << chunk) - 1) as u128),
            mask == range_mask(nbits_left, chunk),
            nbits_left <= 127,
            chunk <= 127,
            nbits_left + chunk <= 128,
            bin_sound(bin@, mask, boundary_constraints@),
            forall|m: u128|
                #[trigger] legal(m, boundary_constraints@, len) && (m >> nbits_left) & max_chunk < i
                    ==> bin@.contains(m & mask),
            bin@.no_duplicates(),
            forall|k: int| 0 <= k < bin@.len() ==> (#[trigger] bin@[k] >> nbits_left) & max_chunk < i,
        decreases max_chunk - i,
    {
        let bomb_subset = i << nbits_left;
        proof {
            lemma_range_mask(0, i, nbits_left, chunk);
        }
        let ghost old_bin = bin@;
        proof {
            lemma_chunk_index(i, nbits_left, chunk);
        }
        if validate(bomb_subset, boundary_constraints, mask) {
            proof {
                lemma_partial_sound(bomb_subset, mask, boundary_constraints@);
            }
            bin.push(bomb_subset);
            assert(bin@[bin@.len() - 1] == bomb_subset);
            assert forall|a: int, b: int|
                0 <= a < bin@.len() && 0 <= b < bin@.len() && a != b implies bin@[a] != bin@[b] by {
                if a < old_bin.len() && b < old_bin.len() {
                    assert(bin@[a] == old_bin[a] && bin@[b] == old_bin[b]);
                } else if a < old_bin.len() {
                    assert(bin@[a] == old_bin[a]);
                    assert((old_bin[a] >> nbits_left) & max_chunk < i);
                } else {
                    assert(bin@[b] == old_bin[b]);
                    assert((old_bin[b] >> nbits_left) & max_chunk < i);
                }
            }
        }
        assert forall|k: int| 0 <= k < bin@.len() implies (#[trigger] bin@[k] >> nbits_left)
            & max_chunk < i + 1 by {
            if k < old_bin.len() {
                assert(bin@[k] == old_bin[k]);
            }
        }
        proof {
            assert forall|m: u128|
                #[trigger] legal(m, boundary_constraints@, len) && (m >> nbits_left) & max_chunk
                    <= i implies bin@.contains(m & mask) by {
                if (m >> nbits_left) & max_chunk == i {
                    lemma_range_mask(m, i, nbits_left, chunk);
                    lemma_legal_partial(m, mask, boundary_constraints@, len);
                    assert(bin@[bin@.len() - 1] == m & mask);
                } else {
                    assert(old_bin.contains(m & mask));
                    let w = choose|w: int| 0 <= w < old_bin.len() && old_bin[w] == m & mask;
                    assert(bin@[w] == m & mask);
                }
            }
        }
        if i == max_chunk {
            proof {
                assert forall|m: u128| #[trigger]
                    legal(m, boundary_constraints@, len) implies bin@.contains(m & mask) by {
                    lemma_range_mask(m, i, nbits_left, chunk);
                }
            }
            return (bin, mask);
        }
        i = i + 1;
    }
}

/// The constraints that touch both `mask1` and `mask2`.
fn overlapping_constraints(cs: &Vec<Constraint>, mask1: u128, mask2: u128) -> (r: Vec<Constraint>)
    ensures
        forall|c: Constraint|
            r@.contains(c) <==> (cs@.contains(c) && c.1 & mask1 != 0 && c.1 & mask2 != 0),
{
    let mut out: Vec<Constraint> = Vec::new();
    let mut k: usize = 0;
    while k < cs.len()
        invariant
            k <= cs@.len(),
            forall|c: Constraint|
                out@.contains(c) <==> (cs@.take(k as int).contains(c) && c.1 & mask1 != 0 && c.1
                    & mask2 != 0),
        decreases cs@.len() - k,
    {
        let c = cs[k];
        let ghost old_out = out@;
        if c.1 & mask1 != 0 && c.1 & mask2 != 0 {
            out.push(c);
        }
        proof {
            assert forall|d: Constraint|
                out@.contains(d) <==> (cs@.take(k + 1).contains(d) && d.1 & mask1 != 0 && d.1
                    & mask2 != 0) by {
                lemma_take_step(cs@, k as int, d);
                if c.1 & mask1 != 0 && c.1 & mask2 != 0 {
                    lemma_push_contains(old_out, c, d);
                }
            }
        }
        k = k + 1;
    }
    assert(cs@.take(cs@.len() as int) == cs@);
    out
}

/// A legal placement meets any selection of the constraints.
proof fn lemma_legal_sub(m: u128, cs: Seq<Constraint>, sub: Seq<Constraint>, len: int)
    requires
        legal(m, cs, len),
        forall|c: Constraint| sub.contains(c) ==> cs.contains(c),
    ensures
        legal(m, sub, len),
{
    assert forall|k: int| 0 <= k < sub.len() implies satisfies(m, #[trigger] sub[k]) by {
        assert(sub.contains(sub[k]));
        assert(cs.contains(sub[k]));
        let w = choose|w: int| 0 <= w < cs.len() && cs[w] == sub[k];
        assert(satisfies(m, cs[w]));
    }
}

/// Soundness of one merged member.
proof fn lemma_merge_member(
    s1: u128,
    s2: u128,
    mask1: u128,
    mask2: u128,
    cs: Seq<Constraint>,
    merging: Seq<Constraint>,
    last: bool,
)
    requires
        mask1 & mask2 == 0,
        sound_member(s1, mask1, cs),
        sound_member(s2, mask2, cs),
        forall|c: Constraint|
            merging.contains(c) <==> (cs.contains(c) && c.1 & mask1 != 0 && c.1 & mask2 != 0),
        last ==> satisfies_all(s1 | s2, merging),
        !last ==> partial_ok_all(s1 | s2, merging, mask1 | mask2),
    ensures
        sound_member(s1 | s2, mask1 | mask2, cs),
{
    let nm = mask1 | mask2;
    let b = s1 | s2;
    assert(b & !nm == 0) by (bit_vector)
        requires
            s1 & !mask1 == 0,
            s2 & !mask2 == 0,
            nm == mask1 | mask2,
            b == s1 | s2,
    ;
    assert forall|j: int| 0 <= j < cs.len() && within(#[trigger] cs[j].1, nm) implies satisfies(
        b,
        cs[j],
    ) by {
        let c = cs[j].1;
        if within(c, mask1) {
            assert(satisfies(s1, cs[j]));
            assert(b & c == s1 & c) by (bit_vector)
                requires
                    s2 & !mask2 == 0,
                    c & !mask1 == 0,
                    mask1 & mask2 == 0,
                    b == s1 | s2,
            ;
        } else if within(c, mask2) {
            assert(satisfies(s2, cs[j]));
            assert(b & c == s2 & c) by (bit_vector)
                requires
                    s1 & !mask1 == 0,
                    c & !mask2 == 0,
                    mask1 & mask2 == 0,
                    b == s1 | s2,
            ;
        } else {
            assert(c & mask1 != 0 && c & mask2 != 0) by (bit_vector)
                requires
                    c & !nm == 0,
                    c & !mask1 != 0,
                    c & !mask2 != 0,
                    nm == mask1 | mask2,
            ;
            assert(cs.contains(cs[j]));
            assert(merging.contains(cs[j]));
            let w = choose|w: int| 0 <= w < merging.len() && merging[w] == cs[j];
            if last {
                assert(satisfies(b, merging[w]));
            } else {
                assert(partial_ok(b, merging[w], nm));
                lemma_within_bits(c, nm);
            }
        }
    }
}

/// Every pair of members of two bins whose combination passes the check
/// against the constraints that touch both; on the last merge, that check is
/// exact.
fn merge_bins(
    bin1: &Vec<u128>,
    mask1: u128,
    bin2: &Vec<u128>,
    mask2: u128,
    boundary_constraints: &Vec<Constraint>,
    last: bool,
    Ghost(len): Ghost<int>,
) -> (r: Vec<u128>)
    requires
        mask1 & mask2 == 0,
        bin_sound(bin1@, mask1, boundary_constraints@),
        bin_sound(bin2@, mask2, boundary_constraints@),
        bin_complete(bin1@, mask1, boundary_constraints@, len),
        bin_complete(bin2@, mask2, boundary_constraints@, len),
        last ==> forall|j: int|
            0 <= j < boundary_constraints@.len() ==> within(
                #[trigger] boundary_constraints@[j].1,
                mask1 | mask2,
            ),
        bin1@.no_duplicates(),
        bin2@.no_duplicates(),
    ensures
        bin_sound(r@, mask1 | mask2, boundary_constraints@),
        bin_complete(r@, mask1 | mask2, boundary_constraints@, len),
        r@.no_duplicates(),
{
    let ghost cs = boundary_constraints@;
    let new_mask = mask1 | mask2;
    let merging = overlapping_constraints(boundary_constraints, mask1, mask2);
    let mut new_bin: Vec<u128> = Vec::new();
    let mut i: usize = 0;
    while i < bin1.len()
        invariant
            i <= bin1@.len(),
            new_mask == mask1 | mask2,
            mask1 & mask2 == 0,
            cs == boundary_constraints@,
            bin_sound(bin1@, mask1, cs),
            bin_sound(bin2@, mask2, cs),
            bin_complete(bin1@, mask1, cs, len),
            bin_complete(bin2@, mask2, cs, len),
            forall|c: Constraint|
                merging@.contains(c) <==> (cs.contains(c) && c.1 & mask1 != 0 && c.1 & mask2 != 0),
            last ==> forall|j: int| 0 <= j < cs.len() ==> within(#[trigger] cs[j].1, mask1 | mask2),
            bin_sound(new_bin@, new_mask, cs),
            forall|m: u128| #[trigger]
                legal(m, cs, len) && bin1@.take(i as int).contains(m & mask1) ==> new_bin@.contains(
                    m & new_mask,
                ),
            bin1@.no_duplicates(),
            bin2@.no_duplicates(),
            new_bin@.no_duplicates(),
            forall|k: int|
                0 <= k < new_bin@.len() ==> bin1@.take(i as int).contains(#[trigger] new_bin@[k] & mask1),
        decreases bin1@.len() - i,
    {
        let s1 = bin1[i];
        let mut j: usize = 0;
        while j < bin2.len()
            invariant
                i < bin1@.len(),
                j <= bin2@.len(),
                s1 == bin1@[i as int],
                new_mask == mask1 | mask2,
                mask1 & mask2 == 0,
                cs == boundary_constraints@,
                bin_sound(bin1@, mask1, cs),
                bin_sound(bin2@, mask2, cs),
                bin_complete(bin2@, mask2, cs, len),
                forall|c: Constraint|
                    merging@.contains(c) <==> (cs.contains(c) && c.1 & mask1 != 0 && c.1 & mask2
                        != 0),
                last ==> forall|j: int| 0 <= j < cs.len() ==> within(#[trigger] cs[j].1, mask1 | mask2),
                bin_sound(new_bin@, new_mask, cs),
                forall|m: u128| #[trigger]
                    legal(m, cs, len) && (bin1@.take(i as int).contains(m & mask1) || (s1 == m
                        & mask1 && bin2@.take(j as int).contains(m & mask2)))
                        ==> new_bin@.contains(m & new_mask),
                bin1@.no_duplicates(),
                bin2@.no_duplicates(),
                new_bin@.no_duplicates(),
                forall|k: int|
                    0 <= k < new_bin@.len() ==> bin1@.take(i as int).contains(
                        #[trigger] new_bin@[k] & mask1,
                    ) || (new_bin@[k] & mask1 == s1 && bin2@.take(j as int).contains(
                        new_bin@[k] & mask2,
                    )),
            decreases bin2@.len() - j,
        {
            let s2 = bin2[j];
            let combined = s1 | s2;
            let ok = if last {
                validate_final(combined, &merging)
            } else {
                validate(combined, &merging, new_mask)
            };
            let ghost old_bin = new_bin@;
            proof {
                assert(sound_member(s1, mask1, cs));
                assert(sound_member(s2, mask2, cs));
                assert(combined & mask1 == s1 && combined & mask2 == s2) by (bit_vector)
                    requires
                        s1 & !mask1 == 0,
                        s2 & !mask2 == 0,
                        mask1 & mask2 == 0,
                        combined == s1 | s2,
                ;
                if bin1@.take(i as int).contains(s1) {
                    let w = choose|w: int| 0 <= w < i && #[trigger] bin1@.take(i as int)[w] == s1;
                    assert(bin1@[w] == bin1@[i as int]);
                }
                if bin2@.take(j as int).contains(s2) {
                    let w = choose|w: int| 0 <= w < j && #[trigger] bin2@.take(j as int)[w] == s2;
                    assert(bin2@[w] == bin2@[j as int]);
                }
            }
            if ok {
                proof {
                    lemma_merge_member(s1, s2, mask1, mask2, cs, merging@, last);
                }
                new_bin.push(combined);
                proof {
                    assert forall|a: int, b: int|
                        0 <= a < new_bin@.len() && 0 <= b < new_bin@.len() && a != b implies new_bin@[a]
                        != new_bin@[b] by {
                        if a < old_bin.len() && b < old_bin.len() {
                            assert(new_bin@[a] == old_bin[a] && new_bin@[b] == old_bin[b]);
                        } else if a < old_bin.len() {
                            assert(new_bin@[a] == old_bin[a]);
                        } else {
                            assert(new_bin@[b] == old_bin[b]);
                        }
                    }
                }
            }
            proof {
                assert forall|k: int| 0 <= k < new_bin@.len() implies bin1@.take(i as int).contains(
                    #[trigger] new_bin@[k] & mask1,
                ) || (new_bin@[k] & mask1 == s1 && bin2@.take(j + 1).contains(new_bin@[k] & mask2)) by {
                    lemma_take_step(bin2@, j as int, new_bin@[k] & mask2);
                    if k < old_bin.len() {
                        assert(new_bin@[k] == old_bin[k]);
                    }
                }
            }
            proof {
                assert forall|m: u128| #[trigger]
                    legal(m, cs, len) && (bin1@.take(i as int).contains(m & mask1) || (s1 == m
                        & mask1 && bin2@.take(j + 1).contains(m & mask2)))
                        implies new_bin@.contains(m & new_mask) by {
                    lemma_take_step(bin2@, j as int, m & mask2);
                    if bin1@.take(i as int).contains(m & mask1) || bin2@.take(j as int).contains(
                        m & mask2,
                    ) {
                        if ok {
                            lemma_push_keeps(old_bin, combined, m & new_mask);
                        }
                    } else {
                        assert(s2 == m & mask2);
                        assert(combined == m & new_mask) by (bit_vector)
                            requires
                                s1 == m & mask1,
                                s2 == m & mask2,
                                combined == s1 | s2,
                                new_mask == mask1 | mask2,
                        ;
                        assert forall|c: Constraint| merging@.contains(c) implies cs.contains(c) by {}
                        lemma_legal_sub(m, cs, merging@, len);
                        if last {
                            assert forall|k: int| 0 <= k < merging@.len() implies satisfies(
                                combined,
                                #[trigger] merging@[k],
                            ) by {
                                let c = merging@[k].1;
                                assert(merging@.contains(merging@[k]));
                                assert(cs.contains(merging@[k]));
                                let w = choose|w: int| 0 <= w < cs.len() && cs[w] == merging@[k];
                                assert(within(cs[w].1, new_mask));
                                assert(satisfies(m, merging@[k]));
                                lemma_within_bits(c, new_mask);
                                assert(combined & c == m & c) by (bit_vector)
                                    requires
                                        combined == m & new_mask,
                                        new_mask & c == c,
                                ;
                            }
                        } else {
                            lemma_legal_partial(m, new_mask, merging@, len);
                        }
                        assert(ok);
                        assert(new_bin@[new_bin@.len() - 1] == m & new_mask);
                    }
                }
            }
            j = j + 1;
        }
        proof {
            assert(bin2@.take(bin2@.len() as int) == bin2@);
            assert forall|k: int|
                0 <= k < new_bin@.len() implies bin1@.take(i + 1).contains(
                #[trigger] new_bin@[k] & mask1,
            ) by {
                lemma_take_step(bin1@, i as int, new_bin@[k] & mask1);
            }
            assert forall|m: u128| #[trigger]
                legal(m, cs, len) && bin1@.take(i + 1).contains(m & mask1) implies new_bin@.contains(
                m & new_mask,
            ) by {
                lemma_take_step(bin1@, i as int, m & mask1);
            }
        }
        i = i + 1;
    }
    proof {
        assert(bin1@.take(bin1@.len() as int) == bin1@);
    }
    new_bin
}

pub open spec fn disjoint(a: u128, b: u128) -> bool {
    a & b == 0
}

pub open spec fn bin_ok(b: (Vec<u128>, u128), cs: Seq<Constraint>, len: int) -> bool {
    &&& bin_sound(b.0@, b.1, cs)
    &&& bin_complete(b.0@, b.1, cs, len)
    &&& fits(b.1, len)
    &&& b.0@.no_duplicates()
}

pub open spec fn bins_ok(bins: Seq<(Vec<u128>, u128)>, cs: Seq<Constraint>, len: int) -> bool {
    &&& forall|j: int| 0 <= j < bins.len() ==> #[trigger] bin_ok(bins[j], cs, len)
    &&& forall|j: int, k: int|
        0 <= j < bins.len() && 0 <= k < bins.len() && j != k ==> #[trigger] disjoint(
            bins[j].1,
            bins[k].1,
        )
}

/// Bit `i` belongs to the mask of some bin.
pub open spec fn covered(bins: Seq<(Vec<u128>, u128)>, i: int) -> bool {
    exists|j: int| 0 <= j < bins.len() && bit(#[trigger] bins[j].1, i)
}

proof fn lemma_zero_from_bits(a: u128)
    requires
        forall|i: int| 0 <= i < 128 ==> !bit(a, i),
    ensures
        a == 0,
{
    assert forall|i: int| 0 <= i < 128 implies bit(a, i) == bit(0u128, i) by {
        crate::bits::lemma_bit_zero(i as u128);
    }
    lemma_eq_from_bits(a, 0);
}

/// Every bomb placement on a boundary of `boundary_size` tiles that meets all
/// constraints, found by checking chunks of the boundary separately and
/// merging them pairwise.
pub fn legal_bomb_candidates(boundary_constraints: &Vec<Constraint>, boundary_size: usize) -> (r:
    Vec<u128>)
    requires
        boundary_size <= 128,
        constraints_fit(boundary_constraints@, boundary_size as int),
    ensures
        forall|m: u128| r@.contains(m) <==> legal(m, boundary_constraints@, boundary_size as int),
        r@.no_duplicates(),
{
    let ghost cs = boundary_constraints@;
    let ghost len = boundary_size as int;
    let mut nbits_left: usize = boundary_size;
    let mut bins: Vec<(Vec<u128>, u128)> = Vec::new();
    let nbins: usize = if boundary_size <= 32 {
        2
    } else {
        8
    };
    let mut bin: usize = 0;
    while bin < nbins
        invariant
            cs == boundary_constraints@,
            len == boundary_size,
            boundary_size <= 32 ==> nbins == 2,
            boundary_size > 32 ==> nbins == 8,
            bin <= nbins,
            bins@.len() == bin,
            nbits_left <= boundary_size <= 128,
            bin == 0 ==> nbits_left == boundary_size,
            bin > 0 ==> nbits_left <= 127,
            bin == nbins ==> nbits_left == 0,
            bins_ok(bins@, cs, len),
            forall|j: int, i: int|
                0 <= j < bins@.len() && 0 <= i < 128 && #[trigger] bit(bins@[j].1, i) ==> nbits_left
                    <= i,
            forall|i: int| nbits_left <= i < len ==> #[trigger] covered(bins@, i),
        decreases nbins - bin,
    {
        let b = nbins - bin;
        let chunk = (2 * nbits_left + b) / (2 * b);
        proof {
            let a = nbits_left as int;
            let bb = b as int;
            assert(chunk <= a) by (nonlinear_arith)
                requires
                    bb >= 1,
                    a >= 0,
                    chunk == (2 * a + bb) / (2 * bb),
            ;
            if bin == 0 {
                if boundary_size <= 32 {
                    assert(chunk <= 16) by (nonlinear_arith)
                        requires
                            bb == 2,
                            a <= 32,
                            chunk == (2 * a + bb) / (2 * bb),
                    ;
                } else {
                    assert(chunk >= 4 && chunk <= 16) by (nonlinear_arith)
                        requires
                            bb == 8,
                            32 < a <= 128,
                            chunk == (2 * a + bb) / (2 * bb),
                    ;
                }
            }
            if b == 1 {
                assert(chunk == a) by (nonlinear_arith)
                    requires
                        bb == 1,
                        chunk == (2 * a + bb) / (2 * bb),
                ;
            }
        }
        let old_left = nbits_left;
        nbits_left = nbits_left - chunk;
        let (cands, mask) = chunk_candidates(
            boundary_constraints,
            nbits_left as u128,
            chunk as u128,
            Ghost(len),
        );
        let ghost old_bins = bins@;
        proof {
            lemma_range_mask_bits(nbits_left as u128, chunk as u128);
            assert forall|j: int| 0 <= j < old_bins.len() implies disjoint(old_bins[j].1, mask)
                && disjoint(mask, old_bins[j].1) by {
                lemma_bit_ops(old_bins[j].1, mask);
                lemma_bit_ops(mask, old_bins[j].1);
                lemma_zero_from_bits(old_bins[j].1 & mask);
                lemma_zero_from_bits(mask & old_bins[j].1);
            }
        }
        bins.push((cands, mask));
        proof {
            assert(bins@[bin as int] == (cands, mask));
            assert forall|j: int| 0 <= j < bins@.len() implies #[trigger] bin_ok(bins@[j], cs, len) by {
                if j < bin {
                    assert(bins@[j] == old_bins[j]);
                }
            }
            assert forall|j: int, k: int|
                0 <= j < bins@.len() && 0 <= k < bins@.len() && j != k implies #[trigger] disjoint(
                bins@[j].1,
                bins@[k].1,
            ) by {
                if j < bin && k < bin {
                    assert(bins@[j] == old_bins[j] && bins@[k] == old_bins[k]);
                } else if j < bin {
                    assert(bins@[j] == old_bins[j]);
                } else {
                    assert(bins@[k] == old_bins[k]);
                }
            }
            assert forall|j: int, i: int|
                0 <= j < bins@.len() && 0 <= i < 128 && #[trigger] bit(bins@[j].1, i) implies nbits_left
                <= i by {
                if j < bin {
                    assert(bins@[j] == old_bins[j]);
                }
            }
            assert forall|i: int| nbits_left <= i < len implies #[trigger] covered(bins@, i) by {
                if i >= old_left {
                    assert(covered(old_bins, i));
                    let j = choose|j: int| 0 <= j < old_bins.len() && bit(#[trigger] old_bins[j].1, i);
                    assert(bins@[j] == old_bins[j]);
                } else {
                    assert(bit(bins@[bin as int].1, i));
                }
            }
        }
        bin = bin + 1;
    }
    while bins.len() > 2
        invariant
            cs == boundary_constraints@,
            len == boundary_size,
            bins@.len() >= 2,
            bins_ok(bins@, cs, len),
            forall|i: int| 0 <= i < len ==> #[trigger] covered(bins@, i),
        decreases bins@.len(),
    {
        let ghost old_bins = bins@;
        let n = bins.len();
        let (bin1, mask1) = bins.pop().unwrap();
        let (bin2, mask2) = bins.pop().unwrap();
        proof {
            assert(old_bins[n - 1] == (bin1, mask1));
            assert(old_bins[n - 2] == (bin2, mask2));
            assert(bin_ok(old_bins[n - 1], cs, len));
            assert(bin_ok(old_bins[n - 2], cs, len));
            assert(disjoint(old_bins[n - 1].1, old_bins[n - 2].1));
        }
        let merged = merge_bins(&bin1, mask1, &bin2, mask2, boundary_constraints, false, Ghost(len));
        let new_mask = mask1 | mask2;
        let ghost rest = bins@;
        bins.insert(0, (merged, new_mask));
        proof {
            assert(rest == old_bins.take(n - 2));
            lemma_bit_ops(mask1, mask2);
            assert(bins@[0] == (merged, new_mask));
            assert forall|j: int| 1 <= j < bins@.len() implies bins@[j] == old_bins[j - 1] by {}
            assert(bin_ok(bins@[0], cs, len));
            assert forall|j: int| 0 <= j < bins@.len() implies #[trigger] bin_ok(bins@[j], cs, len) by {
                if j > 0 {
                    assert(bins@[j] == old_bins[j - 1]);
                }
            }
            assert forall|j: int, k: int|
                0 <= j < bins@.len() && 0 <= k < bins@.len() && j != k implies #[trigger] disjoint(
                bins@[j].1,
                bins@[k].1,
            ) by {
                if j > 0 && k > 0 {
                    assert(bins@[j] == old_bins[j - 1] && bins@[k] == old_bins[k - 1]);
                } else {
                    let o = if j == 0 {
                        k
                    } else {
                        j
                    };
                    let x = old_bins[o - 1].1;
                    assert(bins@[o] == old_bins[o - 1]);
                    assert(disjoint(old_bins[n - 1].1, x) && disjoint(old_bins[n - 2].1, x));
                    assert(disjoint(new_mask, x) && disjoint(x, new_mask)) by (bit_vector)
                        requires
                            mask1 & x == 0,
                            mask2 & x == 0,
                            new_mask == mask1 | mask2,
                    ;
                }
            }
            assert forall|i: int| 0 <= i < len implies #[trigger] covered(bins@, i) by {
                assert(covered(old_bins, i));
                let j = choose|j: int| 0 <= j < old_bins.len() && bit(#[trigger] old_bins[j].1, i);
                if j >= n - 2 {
                    assert(bit(bins@[0].1, i));
                } else {
                    assert(bins@[j + 1] == old_bins[j]);
                }
            }
        }
    }
    let ghost old_bins = bins@;
    let (bin1, mask1) = bins.pop().unwrap();
    let (bin2, mask2) = bins.pop().unwrap();
    let ghost all = mask1 | mask2;
    proof {
        assert(old_bins[1] == (bin1, mask1));
        assert(old_bins[0] == (bin2, mask2));
        assert(bin_ok(old_bins[1], cs, len));
        assert(bin_ok(old_bins[0], cs, len));
        assert(disjoint(old_bins[1].1, old_bins[0].1));
        lemma_bit_ops(mask1, mask2);
        assert forall|i: int| 0 <= i < len implies bit(all, i) by {
            assert(covered(old_bins, i));
        }
        assert forall|j: int| 0 <= j < cs.len() implies within(#[trigger] cs[j].1, all) by {
            assert(fits(cs[j].1, len));
            lemma_within_bits(cs[j].1, all);
        }
    }
    let r = merge_bins(&bin1, mask1, &bin2, mask2, boundary_constraints, true, Ghost(len));
    proof {
        assert forall|m: u128| r@.contains(m) <==> legal(m, cs, len) by {
            if legal(m, cs, len) {
                lemma_bit_ops(m, all);
                assert forall|i: int| 0 <= i < 128 implies bit(m & all, i) == bit(m, i) by {}
                lemma_eq_from_bits(m & all, m);
            }
            if r@.contains(m) {
                let k = choose|k: int| 0 <= k < r@.len() && r@[k] == m;
                assert(sound_member(r@[k], all, cs));
                lemma_within_bits(m, all);
                assert forall|j: int| 0 <= j < cs.len() implies satisfies(m, #[trigger] cs[j]) by {
                    assert(within(cs[j].1, all));
                }
            }
        }
    }
    r
}

/// How many members of `s` satisfy `p`.
pub open spec fn count_where(s: Seq<u128>, p: spec_fn(u128) -> bool) -> nat
    decreases s.len(),
{
    if s.len() == 0 {
        0
    } else {
        count_where(s.drop_last(), p) + if p(s.last()) {
            1nat
        } else {
            0nat
        }
    }
}

/// The legal placements with `k` bombs.
pub open spec fn scenarios_with_bombs(cs: Seq<Constraint>, len: int, k: nat) -> Set<u128> {
    Set::new(|m: u128| legal(m, cs, len) && ones(m) == k)
}

/// The legal placements with `k` bombs, one of them on boundary tile `t`.
pub open spec fn scenarios_with_bomb_at(cs: Seq<Constraint>, len: int, t: int, k: nat) -> Set<u128> {
    Set::new(|m: u128| legal(m, cs, len) && ones(m) == k && bit(m, t))
}

/// All legal placements.
pub open spec fn all_scenarios(cs: Seq<Constraint>, len: int) -> Set<u128> {
    Set::new(|m: u128| legal(m, cs, len))
}

proof fn lemma_count_where_bound(s: Seq<u128>, p: spec_fn(u128) -> bool)
    ensures
        count_where(s, p) <= s.len(),
    decreases s.len(),
{
    if s.len() > 0 {
        lemma_count_where_bound(s.drop_last(), p);
    }
}

proof fn lemma_count_where_step(s: Seq<u128>, c: int, p: spec_fn(u128) -> bool)
    requires
        0 <= c < s.len(),
    ensures
        count_where(s.take(c + 1), p) == count_where(s.take(c), p) + if p(s[c]) {
            1nat
        } else {
            0nat
        },
{
    assert(s.take(c + 1).drop_last() == s.take(c));
}

/// Counting the members of a list without repeats that satisfy `p` counts
/// the set of them.
proof fn lemma_count_where_set(s: Seq<u128>, p: spec_fn(u128) -> bool)
    requires
        s.no_duplicates(),
    ensures
        s.to_set().filter(p).finite(),
        count_where(s, p) == s.to_set().filter(p).len(),
    decreases s.len(),
{
    broadcast use vstd::set::group_set_axioms;

    if s.len() == 0 {
        assert(s.to_set().filter(p) =~= Set::empty());
    } else {
        let rest = s.drop_last();
        let x = s.last();
        assert(rest.no_duplicates()) by {
            assert forall|a: int, b: int|
                0 <= a < rest.len() && 0 <= b < rest.len() && a != b implies rest[a] != rest[b] by {
                assert(rest[a] == s[a] && rest[b] == s[b]);
            }
        }
        lemma_count_where_set(rest, p);
        assert(!rest.to_set().contains(x)) by {
            if rest.to_set().contains(x) {
                let w = choose|w: int| 0 <= w < rest.len() && rest[w] == x;
                assert(s[w] == s[s.len() - 1]);
            }
        }
        assert(s.to_set() =~= rest.to_set().insert(x)) by {
            assert forall|y: u128| s.to_set().contains(y) <==> rest.to_set().insert(x).contains(y) by {
                if s.contains(y) && y != x {
                    let w = choose|w: int| 0 <= w < s.len() && s[w] == y;
                    assert(rest[w] == y);
                }
                if rest.contains(y) {
                    let w = choose|w: int| 0 <= w < rest.len() && rest[w] == y;
                    assert(s[w] == y);
                }
                if y == x {
                    assert(s[s.len() - 1] == y);
                }
            }
        }
        if p(x) {
            assert(s.to_set().filter(p) =~= rest.to_set().filter(p).insert(x));
        } else {
            assert(s.to_set().filter(p) =~= rest.to_set().filter(p));
        }
    }
}

/// `k` bombs, one of them on `tile` where one is given.
pub open spec fn bomb_pred(k: int, tile: Option<usize>) -> spec_fn(u128) -> bool {
    |m: u128| ones(m) == k && (tile matches Some(t) ==> bit(m, t as int))
}

/// Counts, for each number of bombs, the members of `cands` with that many
/// bombs, and with a bomb on tile `tile` where one is given.
fn count_by_bombs(cands: &Vec<u128>, tile: Option<usize>) -> (r: Vec<usize>)
    requires
        tile matches Some(t) ==> t < 128,
    ensures
        r@.len() == 129,
        forall|k: int|
            0 <= k <= 128 ==> #[trigger] r@[k] == count_where(
                cands@,
                bomb_pred(k, tile),
            ),
{
    let mut r: Vec<usize> = Vec::new();
    let mut k: usize = 0;
    while k < 129
        invariant
            k <= 129,
            r@.len() == k,
            forall|j: int| 0 <= j < k ==> r@[j] == 0,
        decreases 129 - k,
    {
        r.push(0);
        k = k + 1;
    }
    let mut c: usize = 0;
    while c < cands.len()
        invariant
            c <= cands@.len(),
            tile matches Some(t) ==> t < 128,
            r@.len() == 129,
            forall|k: int|
                0 <= k <= 128 ==> #[trigger] r@[k] == count_where(
                    cands@.take(c as int),
                    bomb_pred(k, tile),
                ),
        decreases cands@.len() - c,
    {
        let m = cands[c];
        let pc = count_ones(m) as usize;
        proof {
            lemma_ones_bound(m);
        }
        let has = match tile {
            Some(t) => {
                proof {
                    crate::bits::lemma_bit_test(m, t as u128);
                }
                m & (1u128 << (t as u128)) != 0
            },
            None => true,
        };
        let ghost old_r = r@;
        if has {
            proof {
                lemma_count_where_bound(
                    cands@.take(c as int),
                    bomb_pred(pc as int, tile),
                );
            }
            let v = r[pc] + 1;
            r.set(pc, v);
        }
        proof {
            assert forall|k: int| 0 <= k <= 128 implies #[trigger] r@[k] == count_where(
                cands@.take(c + 1),
                bomb_pred(k, tile),
            ) by {
                lemma_count_where_step(
                    cands@,
                    c as int,
                    bomb_pred(k, tile),
                );
            }
        }
        c = c + 1;
    }
    assert(cands@.take(cands@.len() as int) == cands@);
    r
}

/// For the legal placements on a boundary of `boundary_size` tiles: how many
/// have each number of bombs with a bomb on each boundary tile, how many have
/// each number of bombs, and how many there are.
pub fn legal_scenario_info(boundary_constraints: &Vec<Constraint>, boundary_size: usize) -> (r: (
    Vec<Vec<usize>>,
    Vec<usize>,
    usize,
))
    requires
        boundary_size <= 128,
        constraints_fit(boundary_constraints@, boundary_size as int),
    ensures
        r.0@.len() == boundary_size,
        forall|t: int, k: int|
            0 <= t < boundary_size && 0 <= k <= 128 ==> (#[trigger] r.0@[t]@[k]) as int
                == scenarios_with_bomb_at(boundary_constraints@, boundary_size as int, t, k as nat).len(),
        forall|t: int| 0 <= t < boundary_size ==> (#[trigger] r.0@[t]@).len() == 129,
        r.1@.len() == 129,
        forall|k: int|
            0 <= k <= 128 ==> (#[trigger] r.1@[k]) as int == scenarios_with_bombs(
                boundary_constraints@,
                boundary_size as int,
                k as nat,
            ).len(),
        r.2 as int == all_scenarios(boundary_constraints@, boundary_size as int).len(),
{
    let ghost cs = boundary_constraints@;
    let ghost len = boundary_size as int;
    let cands = legal_bomb_candidates(boundary_constraints, boundary_size);
    let mut per_tile: Vec<Vec<usize>> = Vec::new();
    let mut t: usize = 0;
    while t < boundary_size
        invariant
            t <= boundary_size <= 128,
            cs == boundary_constraints@,
            len == boundary_size,
            forall|m: u128| cands@.contains(m) <==> legal(m, cs, len),
            cands@.no_duplicates(),
            per_tile@.len() == t,
            forall|u: int| 0 <= u < t ==> (#[trigger] per_tile@[u]@).len() == 129,
            forall|u: int, k: int|
                0 <= u < t && 0 <= k <= 128 ==> (#[trigger] per_tile@[u]@[k]) as int
                    == scenarios_with_bomb_at(cs, len, u, k as nat).len(),
        decreases boundary_size - t,
    {
        let row = count_by_bombs(&cands, Some(t));
        proof {
            assert forall|k: int| 0 <= k <= 128 implies (#[trigger] row@[k]) as int
                == scenarios_with_bomb_at(cs, len, t as int, k as nat).len() by {
                let p = bomb_pred(k, Some(t));
                lemma_count_where_set(cands@, p);
                assert(cands@.to_set().filter(p) =~= scenarios_with_bomb_at(cs, len, t as int, k as nat));
            }
        }
        let ghost old_rows = per_tile@;
        per_tile.push(row);
        proof {
            assert forall|u: int, k: int|
                0 <= u < t + 1 && 0 <= k <= 128 implies (#[trigger] per_tile@[u]@[k]) as int
                    == scenarios_with_bomb_at(cs, len, u, k as nat).len() by {
                if u < t {
                    assert(per_tile@[u] == old_rows[u]);
                }
            }
            assert forall|u: int| 0 <= u < t + 1 implies (#[trigger] per_tile@[u]@).len() == 129 by {
                if u < t {
                    assert(per_tile@[u] == old_rows[u]);
                }
            }
        }
        t = t + 1;
    }
    let totals = count_by_bombs(&cands, None);
    proof {
        assert forall|k: int| 0 <= k <= 128 implies (#[trigger] totals@[k]) as int
            == scenarios_with_bombs(cs, len, k as nat).len() by {
            let p = bomb_pred(k, None);
            lemma_count_where_set(cands@, p);
            assert(cands@.to_set().filter(p) =~= scenarios_with_bombs(cs, len, k as nat));
        }
        cands@.unique_seq_to_set();
        assert(cands@.to_set() =~= all_scenarios(cs, len));
    }
    (per_tile, totals, cands.len())
}

} // verus!
