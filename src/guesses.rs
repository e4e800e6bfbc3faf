use vstd::prelude::*;

use itertools::Itertools;

use crate::bignum::Big;
use crate::agent::{
    covered_around, revealed_around, covered_neighbours, get_trivial_actions, num_bombs_around, trivial_action,
    uncovered_neighbours, visited,
};
use crate::bits::{bit, fits, mask_of, tile_vec_to_u128};
use crate::board::{Action, ActionType, Board, TilePos, TileState};
use crate::deductions::{
    consistent, density, exact_density, exact_group, get_subset_bounds, keys_ok, lemma_minus,
    lower_sound, minus, needed, seeded, set_difference, upper_sound,
};
use crate::scenarios::{
    constraints_fit, legal, legal_scenario_info, satisfies, scenarios_with_bomb_at, scenarios_with_bombs,
    Constraint,
};
use crate::bits::ones;

verus! {

/// `(nb - lo) * (nb - lo - 1) * ... * (nb - o + 1)`: the product of
/// `nb - i + 1` for `i` from `lo + 1` to `o`.
pub open spec fn fall(nb: nat, lo: nat, o: nat) -> nat
    decreases o,
{
    if o <= lo {
        1
    } else {
        fall(nb, lo, (o - 1) as nat) * ((nb + 1 - o) as nat)
    }
}

/// `(lo + 1) * (lo + 2) * ... * o`.
pub open spec fn rise(lo: nat, o: nat) -> nat
    decreases o,
{
    if o <= lo {
        1
    } else {
        rise(lo, (o - 1) as nat) * o
    }
}

/// Numerator of the weight of a scenario that leaves `o` bombs to the `nb`
/// tiles off the boundary, relative to one that leaves `lo`: the ratio of
/// `C(nb, o)` to `C(nb, lo)`.
pub open spec fn weight_num(o: nat, nb: nat, lo: nat) -> nat {
    if o > nb {
        0
    } else {
        fall(nb, lo, o)
    }
}

pub open spec fn weight_den(o: nat, nb: nat, lo: nat) -> nat {
    if o > nb {
        1
    } else {
        rise(lo, o)
    }
}

pub proof fn lemma_fall_pos(nb: nat, lo: nat, o: nat)
    requires
        o <= nb,
    ensures
        fall(nb, lo, o) >= 1,
    decreases o,
{
    if o > lo {
        lemma_fall_pos(nb, lo, (o - 1) as nat);
        let f = fall(nb, lo, (o - 1) as nat);
        let g = (nb + 1 - o) as nat;
        assert(f * g >= 1) by (nonlinear_arith)
            requires
                f >= 1,
                g >= 1,
        ;
    }
}

/// The weight of the scenarios that leave the least number of bombs off the
/// boundary is one.
pub proof fn lemma_case_weight_base(nb: nat, lo: nat)
    requires
        lo <= nb,
    ensures
        weight_num(lo, nb, lo) == 1,
        weight_den(lo, nb, lo) == 1,
{
}

/// Past the middle of the tiles off the boundary, leaving more bombs to them
/// never gives a larger weight: for `lo <= o1 <= o2` and `nb <= 2 * o1 + 1`,
/// `weight(o2) <= weight(o1)`.
pub proof fn lemma_case_weight_monotone(nb: nat, lo: nat, o1: nat, o2: nat)
    requires
        lo <= o1 <= o2,
        nb <= 2 * o1 + 1,
    ensures
        weight_num(o2, nb, lo) * weight_den(o1, nb, lo) <= weight_num(o1, nb, lo) * weight_den(
            o2,
            nb,
            lo,
        ),
    decreases o2,
{
    if o2 > nb {
        if o1 <= nb {
            lemma_fall_pos(nb, lo, o1);
        }
        assert(weight_num(o2, nb, lo) == 0);
        assert(0 * weight_den(o1, nb, lo) == 0);
        assert(weight_num(o1, nb, lo) * weight_den(o2, nb, lo) >= 0) by (nonlinear_arith);
    } else if o2 > o1 {
        lemma_case_weight_monotone(nb, lo, o1, (o2 - 1) as nat);
        let p = (o2 - 1) as nat;
        let fa = fall(nb, lo, o1);
        let ra = rise(lo, o1);
        let fp = fall(nb, lo, p);
        let rp = rise(lo, p);
        let g = (nb + 1 - o2) as nat;
        assert(fall(nb, lo, o2) == fp * g);
        assert(rise(lo, o2) == rp * o2);
        assert(g <= o2);
        assert(fp * g * ra <= fa * (rp * o2)) by (nonlinear_arith)
            requires
                fp * ra <= fa * rp,
                g <= o2,
                fp >= 0,
                ra >= 0,
        ;
    }
}

/// `(nb - lo) * ... * (nb - o + 1)`, exactly.
fn fall_big(nb: usize, lo: usize, o: usize) -> (r: Big)
    requires
        lo <= o <= nb,
    ensures
        r@ == fall(nb as nat, lo as nat, o as nat),
{
    let mut acc = Big::from_u64(1);
    let mut i: usize = lo;
    while i < o
        invariant
            lo <= i <= o <= nb,
            acc@ == fall(nb as nat, lo as nat, i as nat),
        decreases o - i,
    {
        let next = i + 1;
        let factor = (nb - next + 1) as u64;
        acc = acc.mul_small(factor);
        i = next;
    }
    acc
}

/// `x * (o + 1) * ... * hi`, exactly.
fn times_rise(x: Big, o: usize, hi: usize) -> (r: Big)
    requires
        o <= hi,
    ensures
        r@ == x@ * rise(o as nat, hi as nat),
{
    let ghost x0 = x@;
    let mut acc = x;
    let mut i: usize = o;
    assert(x0 * rise(o as nat, o as nat) == x0) by (nonlinear_arith)
        requires
            rise(o as nat, o as nat) == 1,
    ;
    while i < hi
        invariant
            o <= i <= hi,
            acc@ == x0 * rise(o as nat, i as nat),
        decreases hi - i,
    {
        let next = i + 1;
        let ghost before = acc@;
        acc = acc.mul_small(next as u64);
        proof {
            assert(rise(o as nat, next as nat) == rise(o as nat, i as nat) * next);
            assert(before * next == x0 * (rise(o as nat, i as nat) * next)) by (nonlinear_arith)
                requires
                    before == x0 * rise(o as nat, i as nat),
            ;
        }
        i = next;
    }
    acc
}

/// The weight of a scenario that leaves `num_bombs_omitted` bombs to the
/// `num_non_boundary_covered` tiles off the boundary, relative to one that
/// leaves `min_bombs_omitted`, exactly, as numerator and denominator.
pub fn case_weight(
    num_bombs_omitted: usize,
    num_non_boundary_covered: usize,
    min_bombs_omitted: usize,
) -> (r: (Big, Big))
    requires
        min_bombs_omitted <= num_bombs_omitted,
    ensures
        r.0@ == weight_num(
            num_bombs_omitted as nat,
            num_non_boundary_covered as nat,
            min_bombs_omitted as nat,
        ),
        r.1@ == weight_den(
            num_bombs_omitted as nat,
            num_non_boundary_covered as nat,
            min_bombs_omitted as nat,
        ),
{
    if num_bombs_omitted > num_non_boundary_covered {
        return (Big::from_u64(0), Big::from_u64(1));
    }
    let num = fall_big(num_non_boundary_covered, min_bombs_omitted, num_bombs_omitted);
    let den = times_rise(Big::from_u64(1), min_bombs_omitted, num_bombs_omitted);
    (num, den)
}

/// `k` bombs on the boundary leave a number of bombs that the tiles off the
/// boundary can hold.
pub open spec fn allowed(k: int, total_left: int, nb: int) -> bool {
    total_left - nb <= k <= total_left
}

/// Some legal scenario has `k` bombs on the boundary.
pub open spec fn live(totals: Seq<usize>, total_left: int, nb: int, k: int) -> bool {
    0 <= k < totals.len() && allowed(k, total_left, nb) && totals[k] > 0
}

/// The largest live count below `n`, or -1.
pub open spec fn top_live(totals: Seq<usize>, total_left: int, nb: int, n: int) -> int
    decreases n,
{
    if n <= 0 {
        -1
    } else if live(totals, total_left, nb, n - 1) {
        n - 1
    } else {
        top_live(totals, total_left, nb, n - 1)
    }
}

/// The smallest live count from `n` up, or the length of `totals`.
pub open spec fn bottom_live(totals: Seq<usize>, total_left: int, nb: int, n: int) -> int
    decreases totals.len() - n,
{
    if n < 0 || n >= totals.len() {
        totals.len() as int
    } else if live(totals, total_left, nb, n) {
        n
    } else {
        bottom_live(totals, total_left, nb, n + 1)
    }
}

pub open spec fn kmax(totals: Seq<usize>, total_left: int, nb: int) -> int {
    top_live(totals, total_left, nb, totals.len() as int)
}

pub open spec fn kmin(totals: Seq<usize>, total_left: int, nb: int) -> int {
    bottom_live(totals, total_left, nb, 0)
}

/// The weight of each scenario with `k` bombs on the boundary, scaled by a
/// positive factor common to all `k` so that every weight is an integer:
/// `C(nb, o) / C(nb, lo)` times `(lo + 1) * ... * hi`, where `o` bombs are
/// left off the boundary and `lo`, `hi` are the least and most that any
/// legal scenario leaves.
pub open spec fn scaled_weight(totals: Seq<usize>, total_left: int, nb: int, k: int) -> nat {
    let top = kmax(totals, total_left, nb);
    let bottom = kmin(totals, total_left, nb);
    if top >= 0 && bottom <= k <= top {
        fall(nb as nat, (total_left - top) as nat, (total_left - k) as nat) * rise(
            (total_left - k) as nat,
            (total_left - bottom) as nat,
        )
    } else {
        0
    }
}

proof fn lemma_top_live(totals: Seq<usize>, total_left: int, nb: int, n: int)
    requires
        0 <= n <= totals.len(),
    ensures
        -1 <= top_live(totals, total_left, nb, n) < n,
        top_live(totals, total_left, nb, n) >= 0 ==> live(
            totals,
            total_left,
            nb,
            top_live(totals, total_left, nb, n),
        ),
        forall|j: int|
            top_live(totals, total_left, nb, n) < j < n ==> !#[trigger] live(
                totals,
                total_left,
                nb,
                j,
            ),
    decreases n,
{
    if n > 0 {
        lemma_top_live(totals, total_left, nb, n - 1);
    }
}

proof fn lemma_bottom_live(totals: Seq<usize>, total_left: int, nb: int, n: int)
    requires
        0 <= n <= totals.len(),
    ensures
        n <= bottom_live(totals, total_left, nb, n) <= totals.len(),
        bottom_live(totals, total_left, nb, n) < totals.len() ==> live(
            totals,
            total_left,
            nb,
            bottom_live(totals, total_left, nb, n),
        ),
        forall|j: int|
            n <= j < bottom_live(totals, total_left, nb, n) ==> !#[trigger] live(
                totals,
                total_left,
                nb,
                j,
            ),
    decreases totals.len() - n,
{
    if n < totals.len() {
        lemma_bottom_live(totals, total_left, nb, n + 1);
    }
}

/// Where some legal scenario is left, the scaled weight of each number of
/// boundary bombs, exactly; `None` where there is none.
pub fn bomb_count_weights(totals: &Vec<usize>, total_left: usize, nb: usize) -> (r: Option<
    Vec<Big>,
>)
    requires
        totals@.len() == 129,
    ensures
        r.is_some() <==> kmax(totals@, total_left as int, nb as int) >= 0,
        r matches Some(w) ==> w@.len() == 129 && forall|k: int|
            0 <= k < 129 ==> (#[trigger] w@[k])@ == scaled_weight(
                totals@,
                total_left as int,
                nb as int,
                k,
            ),
{
    let ghost ts = totals@;
    let ghost tl = total_left as int;
    let ghost n = nb as int;
    let min_bombs: usize = if total_left > nb {
        total_left - nb
    } else {
        0
    };
    // the largest and smallest numbers of boundary bombs of a legal scenario
    let mut top: usize = 129;
    let mut k: usize = 129;
    while k > 0
        invariant
            k <= 129,
            totals@ == ts,
            ts.len() == 129,
            tl == total_left,
            n == nb,
            min_bombs == (if total_left > nb {
                total_left - nb
            } else {
                0
            }),
            top <= 129,
            top == 129 ==> top_live(ts, tl, n, 129) == top_live(ts, tl, n, k as int),
            top < 129 ==> top == top_live(ts, tl, n, 129),
        decreases k,
    {
        if top == 129 && min_bombs <= k - 1 && k - 1 <= total_left && totals[k - 1] > 0 {
            top = k - 1;
        }
        k = k - 1;
    }
    if top == 129 {
        return None;
    }
    let mut bottom: usize = 129;
    let mut k: usize = 0;
    while k < 129
        invariant
            k <= 129,
            totals@ == ts,
            ts.len() == 129,
            tl == total_left,
            n == nb,
            min_bombs == (if total_left > nb {
                total_left - nb
            } else {
                0
            }),
            top < 129,
            top as int == top_live(ts, tl, n, 129),
            bottom <= 129,
            bottom == 129 ==> bottom_live(ts, tl, n, 0) == bottom_live(ts, tl, n, k as int),
            bottom < 129 ==> bottom == bottom_live(ts, tl, n, 0),
        decreases 129 - k,
    {
        if bottom == 129 && min_bombs <= k && k <= total_left && totals[k] > 0 {
            bottom = k;
        }
        k = k + 1;
    }
    proof {
        lemma_top_live(ts, tl, n, 129);
        lemma_bottom_live(ts, tl, n, 0);
        assert(live(ts, tl, n, top as int));
        if bottom == 129 {
            assert(bottom_live(ts, tl, n, 0) == 129);
            assert(!live(ts, tl, n, top as int));
        }
        assert(bottom <= top);
    }
    let lo = total_left - top;
    let hi = total_left - bottom;
    let mut weights: Vec<Big> = Vec::new();
    let mut k: usize = 0;
    while k < 129
        invariant
            k <= 129,
            totals@ == ts,
            ts.len() == 129,
            tl == total_left,
            n == nb,
            top as int == kmax(ts, tl, n),
            bottom as int == kmin(ts, tl, n),
            bottom <= top < 129,
            top <= total_left,
            total_left - top <= nb,
            lo == total_left - top,
            hi == total_left - bottom,
            weights@.len() == k,
            forall|j: int| 0 <= j < k ==> (#[trigger] weights@[j])@ == scaled_weight(ts, tl, n, j),
        decreases 129 - k,
    {
        let w = if bottom <= k && k <= top {
            proof {
                lemma_bottom_live(ts, tl, n, 0);
                assert(live(ts, tl, n, bottom as int));
            }
            let o = total_left - k;
            let f = fall_big(nb, lo, o);
            let v = times_rise(f, o, hi);
            proof {
                assert(scaled_weight(ts, tl, n, k as int) == fall(nb as nat, lo as nat, o as nat)
                    * rise(o as nat, hi as nat));
            }
            v
        } else {
            Big::from_u64(0)
        };
        weights.push(w);
        k = k + 1;
    }
    Some(weights)
}

/// `sum of counts[k] * w(k)` over `k < n`.
pub open spec fn dot(counts: Seq<usize>, w: spec_fn(int) -> nat, n: int) -> nat
    decreases n,
{
    if n <= 0 {
        0
    } else {
        dot(counts, w, n - 1) + (counts[n - 1] as nat) * w(n - 1)
    }
}

pub open spec fn big_fn(ws: Seq<Big>) -> spec_fn(int) -> nat {
    |k: int| ws[k]@
}

/// `sum of counts[k] * ws[k]`, exactly.
fn weighted_sum(counts: &Vec<usize>, ws: &Vec<Big>) -> (r: Big)
    requires
        counts@.len() == ws@.len(),
    ensures
        r@ == dot(counts@, big_fn(ws@), counts@.len() as int),
{
    let ghost w = big_fn(ws@);
    let mut total = Big::from_u64(0);
    let mut k: usize = 0;
    while k < counts.len()
        invariant
            counts@.len() == ws@.len(),
            w == big_fn(ws@),
            k <= counts@.len(),
            total@ == dot(counts@, w, k as int),
        decreases counts@.len() - k,
    {
        let term = ws[k].mul_small(counts[k] as u64);
        proof {
            assert(ws@[k as int]@ * (counts@[k as int] as nat) == (counts@[k as int] as nat) * w(
                k as int,
            )) by (nonlinear_arith)
                requires
                    w(k as int) == ws@[k as int]@,
            ;
        }
        total = total.add(&term);
        k = k + 1;
    }
    total
}

proof fn lemma_dot_ext(counts: Seq<usize>, f: spec_fn(int) -> nat, g: spec_fn(int) -> nat, n: int)
    requires
        forall|k: int| 0 <= k < n ==> #[trigger] f(k) == g(k),
    ensures
        dot(counts, f, n) == dot(counts, g, n),
    decreases n,
{
    if n > 0 {
        lemma_dot_ext(counts, f, g, n - 1);
    }
}

/// Where to guess: the boundary tile of the given index, or a tile off the
/// boundary.
#[derive(Clone, Copy, PartialEq, Eq, Structural, Debug)]
pub enum Guess {
    Boundary(usize),
    Elsewhere,
}

/// `a` comes no later than `b`, by column and then row.
pub open spec fn tile_le(a: TilePos, b: TilePos) -> bool {
    a.col < b.col || (a.col == b.col && a.row <= b.row)
}

/// The weight of the scenarios with a bomb on boundary tile `t`.
pub open spec fn unsafe_weight(per_tile: Seq<Vec<usize>>, ws: Seq<Big>, t: int) -> nat {
    dot(per_tile[t]@, big_fn(ws), 129)
}

/// Boundary tile `i` is the least likely to hold a bomb, the earlier tile
/// among equals.
pub open spec fn is_best(per_tile: Seq<Vec<usize>>, ws: Seq<Big>, boundary: Seq<TilePos>, i: int) -> bool {
    &&& 0 <= i < boundary.len()
    &&& forall|j: int|
        0 <= j < boundary.len() ==> unsafe_weight(per_tile, ws, i) < #[trigger] unsafe_weight(
            per_tile,
            ws,
            j,
        ) || (unsafe_weight(per_tile, ws, i) == unsafe_weight(per_tile, ws, j) && tile_le(
            boundary[i],
            boundary[j],
        ))
}

pub open spec fn omit_fn(ws: Seq<Big>, total_left: int) -> spec_fn(int) -> nat {
    |k: int|
        if k <= total_left {
            ws[k]@ * ((total_left - k) as nat)
        } else {
            0
        }
}

/// The weighted number of bombs that the scenarios leave off the boundary.
pub open spec fn omitted_weight(totals: Seq<usize>, ws: Seq<Big>, total_left: int) -> nat {
    dot(totals, omit_fn(ws, total_left), 129)
}

/// Picks the boundary tile least likely to hold a bomb, and keeps it unless
/// the tiles off the boundary are at least as safe: a boundary tile with
/// unsafe weight `u` is safer exactly when `u * nb` is below the weighted
/// number of bombs left off the boundary.
pub fn choose_guess(
    per_tile: &Vec<Vec<usize>>,
    totals: &Vec<usize>,
    ws: &Vec<Big>,
    boundary: &Vec<TilePos>,
    total_left: usize,
    nb: usize,
) -> (r: Guess)
    requires
        boundary@.len() == per_tile@.len(),
        per_tile@.len() > 0,
        forall|t: int| 0 <= t < per_tile@.len() ==> (#[trigger] per_tile@[t]@).len() == 129,
        totals@.len() == 129,
        ws@.len() == 129,
    ensures
        r matches Guess::Boundary(i) ==> is_best(per_tile@, ws@, boundary@, i as int) && (nb == 0
            || unsafe_weight(per_tile@, ws@, i as int) * nb < omitted_weight(
            totals@,
            ws@,
            total_left as int,
        )),
        r matches Guess::Elsewhere ==> nb > 0 && forall|i: int|
            #[trigger] is_best(per_tile@, ws@, boundary@, i) ==> unsafe_weight(per_tile@, ws@, i)
                * nb >= omitted_weight(totals@, ws@, total_left as int),
{
    let ghost pt = per_tile@;
    let ghost w = ws@;
    let ghost bd = boundary@;
    let mut best: usize = 0;
    let mut best_val = weighted_sum(&per_tile[0], ws);
    let mut t: usize = 1;
    while t < per_tile.len()
        invariant
            pt == per_tile@,
            w == ws@,
            bd == boundary@,
            bd.len() == pt.len(),
            forall|u: int| 0 <= u < pt.len() ==> (#[trigger] pt[u]@).len() == 129,
            ws@.len() == 129,
            1 <= t <= pt.len(),
            best < t,
            best_val@ == unsafe_weight(pt, w, best as int),
            forall|j: int|
                0 <= j < t ==> unsafe_weight(pt, w, best as int) < #[trigger] unsafe_weight(
                    pt,
                    w,
                    j,
                ) || (unsafe_weight(pt, w, best as int) == unsafe_weight(pt, w, j) && tile_le(
                    bd[best as int],
                    bd[j],
                )),
        decreases pt.len() - t,
    {
        let val = weighted_sum(&per_tile[t], ws);
        let tile = boundary[t];
        let cur = boundary[best];
        if val.lt(&best_val) || (val.eq(&best_val) && (tile.col < cur.col || (tile.col == cur.col
            && tile.row < cur.row))) {
            best = t;
            best_val = val;
        }
        t = t + 1;
    }
    proof {
        assert(is_best(pt, w, bd, best as int));
    }
    if nb == 0 {
        return Guess::Boundary(best);
    }
    let mut om: Vec<Big> = Vec::new();
    let mut k: usize = 0;
    while k < 129
        invariant
            k <= 129,
            w == ws@,
            ws@.len() == 129,
            om@.len() == k,
            forall|j: int| 0 <= j < k ==> (#[trigger] om@[j])@ == omit_fn(w, total_left as int)(j),
        decreases 129 - k,
    {
        let v = if k <= total_left {
            ws[k].mul_small((total_left - k) as u64)
        } else {
            Big::from_u64(0)
        };
        om.push(v);
        k = k + 1;
    }
    let nonb = weighted_sum(totals, &om);
    proof {
        lemma_dot_ext(totals@, big_fn(om@), omit_fn(w, total_left as int), 129);
    }
    let lhs = best_val.mul_small(nb as u64);
    if lhs.lt(&nonb) {
        Guess::Boundary(best)
    } else {
        proof {
            assert forall|i: int| #[trigger] is_best(pt, w, bd, i) implies unsafe_weight(pt, w, i)
                * nb >= omitted_weight(totals@, w, total_left as int) by {
                assert(unsafe_weight(pt, w, i) == unsafe_weight(pt, w, best as int));
            }
        }
        Guess::Elsewhere
    }
}

/// Every two tiles of `s` are close enough for their squared distance to fit
/// in a `usize`.
pub open spec fn distances_fit(s: Seq<TilePos>) -> bool {
    forall|a: TilePos, b: TilePos|
        s.contains(a) && s.contains(b) ==> #[trigger] a.sq_dist(b) <= usize::MAX
}

/// Relies on `itertools::Itertools::sorted_unstable_by_key`: the same tiles,
/// in ascending order of their squared distance to `centre`.
#[verifier::external_body]
fn sort_by_distance(tiles: Vec<TilePos>, centre: TilePos) -> (r: Vec<TilePos>)
    requires
        forall|i: int| 0 <= i < tiles@.len() ==> (#[trigger] tiles@[i]).sq_dist(centre) <= usize::MAX,
    ensures
        r@.to_multiset() == tiles@.to_multiset(),
        forall|i: int, j: int|
            0 <= i <= j < r@.len() ==> (#[trigger] r@[i]).sq_dist(centre) <= (#[trigger] r@[j]).sq_dist(
                centre,
            ),
{
    tiles.into_iter().sorted_unstable_by_key(|t| t.squared_distance(centre)).collect()
}

/// `v` in reverse order.
fn reversed(v: Vec<TilePos>) -> (r: Vec<TilePos>)
    ensures
        r@ == v@.reverse(),
{
    let mut out: Vec<TilePos> = Vec::new();
    let mut i: usize = v.len();
    while i > 0
        invariant
            i <= v@.len(),
            out@.len() == v@.len() - i,
            forall|k: int| 0 <= k < out@.len() ==> out@[k] == v@[v@.len() - 1 - k],
        decreases i,
    {
        out.push(v[i - 1]);
        i = i - 1;
    }
    assert(out@ =~= v@.reverse());
    out
}

proof fn lemma_multiset_contains(a: Seq<TilePos>, b: Seq<TilePos>, x: TilePos)
    requires
        a.to_multiset() == b.to_multiset(),
    ensures
        a.contains(x) <==> b.contains(x),
{
    vstd::seq_lib::to_multiset_contains(a, x);
    vstd::seq_lib::to_multiset_contains(b, x);
}

/// `c` is one end of a pair of tiles of `s` at the greatest distance.
pub open spec fn farthest_end(s: Seq<TilePos>, c: TilePos) -> bool {
    exists|d: TilePos|
        #![trigger c.sq_dist(d)]
        s.contains(c) && s.contains(d) && forall|x: TilePos, y: TilePos|
            s.contains(x) && s.contains(y) ==> #[trigger] x.sq_dist(y) <= c.sq_dist(d)
}

/// One step of the bisection: `s` splits into `a0`, the half nearest `c`,
/// and the rest `b0`; ordered, they become `a` and `b`, joined as `r` with
/// `b` reversed exactly where that brings the tiles at the join closer.
pub open spec fn bisect_step(
    s: Seq<TilePos>,
    c: TilePos,
    a0: Seq<TilePos>,
    b0: Seq<TilePos>,
    a: Seq<TilePos>,
    b: Seq<TilePos>,
    r: Seq<TilePos>,
) -> bool {
    &&& farthest_end(s, c)
    &&& (a0 + b0).to_multiset() == s.to_multiset()
    &&& forall|x: TilePos, y: TilePos|
        a0.contains(x) && b0.contains(y) ==> #[trigger] x.sq_dist(c) <= #[trigger] y.sq_dist(c)
    &&& a.len() > 0 && b.len() > 0
    &&& if a.last().sq_dist(b[0]) > a.last().sq_dist(b.last()) {
        r == a + b.reverse()
    } else {
        r == a + b
    }
}

/// `r` is `s` ordered by recursive bisection: split into the half nearest one
/// end of a widest pair and the rest, each half ordered the same way.
pub open spec fn bisection(s: Seq<TilePos>, r: Seq<TilePos>) -> bool
    decreases s.len(),
{
    if s.len() <= 1 {
        r == s
    } else {
        exists|c: TilePos, a0: Seq<TilePos>, b0: Seq<TilePos>, a: Seq<TilePos>, b: Seq<TilePos>|
            #![trigger bisect_step(s, c, a0, b0, a, b, r)]
            a0.len() == s.len() / 2 && b0.len() == s.len() - s.len() / 2 && bisect_step(
                s,
                c,
                a0,
                b0,
                a,
                b,
                r,
            ) && bisection(a0, a) && bisection(b0, b)
    }
}

/// Orders the boundary so that tiles close to each other sit close together:
/// split it by distance to one end of its widest pair, order each half the
/// same way, and join the halves, the second one reversed where that brings
/// the tiles at the join closer.
pub fn sensible_ordering(covered_boundary: Vec<TilePos>) -> (r: Vec<TilePos>)
    requires
        distances_fit(covered_boundary@),
    ensures
        r@.to_multiset() == covered_boundary@.to_multiset(),
        bisection(covered_boundary@, r@),
    decreases covered_boundary@.len(),
{
    let n = covered_boundary.len();
    if n <= 1 {
        return covered_boundary;
    }
    // one end of a pair of tiles at the greatest distance
    let ghost cb = covered_boundary@;
    let mut centroid: usize = 0;
    let mut partner: usize = 0;
    let mut best_dist: usize = 0;
    proof {
        assert(cb.contains(cb[0]));
    }
    let mut i: usize = 0;
    while i < n
        invariant
            n == covered_boundary@.len(),
            cb == covered_boundary@,
            distances_fit(covered_boundary@),
            i <= n,
            centroid < n,
            partner < n,
            best_dist as int <= cb[centroid as int].sq_dist(cb[partner as int]),
            i > 0 ==> best_dist == cb[centroid as int].sq_dist(cb[partner as int]),
            i == 0 ==> best_dist == 0,
            forall|x: int, y: int|
                0 <= x < i && 0 <= y < n ==> #[trigger] cb[x].sq_dist(cb[y]) <= best_dist,
        decreases n - i,
    {
        let mut j: usize = 0;
        while j < n
            invariant
                n == covered_boundary@.len(),
                cb == covered_boundary@,
                distances_fit(covered_boundary@),
                i < n,
                j <= n,
                centroid < n,
                partner < n,
                best_dist as int <= cb[centroid as int].sq_dist(cb[partner as int]),
                i > 0 || j > 0 ==> best_dist == cb[centroid as int].sq_dist(cb[partner as int]),
                i == 0 && j == 0 ==> best_dist == 0,
                forall|x: int, y: int|
                    (0 <= x < i && 0 <= y < n) || (x == i && 0 <= y < j) ==> #[trigger] cb[x].sq_dist(
                        cb[y],
                    ) <= best_dist,
            decreases n - j,
        {
            proof {
                assert(covered_boundary@.contains(covered_boundary@[i as int]));
                assert(covered_boundary@.contains(covered_boundary@[j as int]));
            }
            let d = covered_boundary[i].squared_distance(covered_boundary[j]);
            if d >= best_dist {
                best_dist = d;
                centroid = i;
                partner = j;
            }
            j = j + 1;
        }
        i = i + 1;
    }
    let centre = covered_boundary[centroid];
    let ghost input = covered_boundary@;
    proof {
        assert(input.contains(centre));
        let d = cb[partner as int];
        assert(input.contains(d));
        assert forall|x: TilePos, y: TilePos|
            input.contains(x) && input.contains(y) implies #[trigger] x.sq_dist(y)
            <= centre.sq_dist(d) by {
            let ix = choose|ix: int| 0 <= ix < input.len() && input[ix] == x;
            let iy = choose|iy: int| 0 <= iy < input.len() && input[iy] == y;
            assert(cb[ix].sq_dist(cb[iy]) <= best_dist);
        }
        assert(farthest_end(input, centre));
        assert forall|k: int| 0 <= k < input.len() implies (#[trigger] input[k]).sq_dist(centre)
            <= usize::MAX by {
            assert(input.contains(input[k]));
        }
    }
    let mut sorted = sort_by_distance(covered_boundary, centre);
    let ghost all = sorted@;
    proof {
        all.to_multiset_ensures();
        input.to_multiset_ensures();
        assert(all.len() == n);
    }
    let boundary2 = sorted.split_off(n / 2);
    let boundary1 = sorted;
    proof {
        assert(all =~= boundary1@ + boundary2@);
        vstd::seq_lib::lemma_multiset_commutative(boundary1@, boundary2@);
        assert forall|a: TilePos, b: TilePos|
            boundary1@.contains(a) && boundary1@.contains(b) implies #[trigger] a.sq_dist(b)
            <= usize::MAX by {
            let x = choose|x: int| 0 <= x < boundary1@.len() && boundary1@[x] == a;
            let y = choose|y: int| 0 <= y < boundary1@.len() && boundary1@[y] == b;
            assert(all[x] == a && all[y] == b);
            lemma_multiset_contains(all, input, a);
            lemma_multiset_contains(all, input, b);
        }
        assert forall|a: TilePos, b: TilePos|
            boundary2@.contains(a) && boundary2@.contains(b) implies #[trigger] a.sq_dist(b)
            <= usize::MAX by {
            let x = choose|x: int| 0 <= x < boundary2@.len() && boundary2@[x] == a;
            let y = choose|y: int| 0 <= y < boundary2@.len() && boundary2@[y] == b;
            assert(all[x + n / 2] == a && all[y + n / 2] == b);
            lemma_multiset_contains(all, input, a);
            lemma_multiset_contains(all, input, b);
        }
    }
    let ghost s1 = boundary1@;
    let ghost s2 = boundary2@;
    let mut boundary1 = sensible_ordering(boundary1);
    let mut boundary2 = sensible_ordering(boundary2);
    let ghost m1 = boundary1@;
    let ghost m2 = boundary2@;
    proof {
        m1.to_multiset_ensures();
        m2.to_multiset_ensures();
        s1.to_multiset_ensures();
        s2.to_multiset_ensures();
        all.to_multiset_ensures();
        assert(m1.len() == s1.len() && m2.len() == s2.len());
    }
    // reorder when merging if distance is smaller
    let tail1 = boundary1[boundary1.len() - 1];
    let head2 = boundary2[0];
    let last2 = boundary2[boundary2.len() - 1];
    proof {
        assert(m1.contains(tail1) && m2.contains(head2) && m2.contains(last2));
        lemma_multiset_contains(m1, s1, tail1);
        lemma_multiset_contains(m2, s2, head2);
        lemma_multiset_contains(m2, s2, last2);
        let x = choose|x: int| 0 <= x < s1.len() && s1[x] == tail1;
        let y = choose|y: int| 0 <= y < s2.len() && s2[y] == head2;
        let z = choose|z: int| 0 <= z < s2.len() && s2[z] == last2;
        assert(all[x] == tail1 && all[y + n / 2] == head2 && all[z + n / 2] == last2);
        lemma_multiset_contains(all, input, tail1);
        lemma_multiset_contains(all, input, head2);
        lemma_multiset_contains(all, input, last2);
    }
    let tail_to_head = tail1.squared_distance(head2);
    let tail_to_tail = tail1.squared_distance(last2);
    if tail_to_head > tail_to_tail {
        boundary2 = reversed(boundary2);
        proof {
            m2.lemma_reverse_to_multiset();
        }
    }
    let ghost b2 = boundary2@;
    boundary1.append(&mut boundary2);
    proof {
        vstd::seq_lib::lemma_multiset_commutative(m1, b2);
        assert forall|x: TilePos, y: TilePos|
            s1.contains(x) && s2.contains(y) implies #[trigger] x.sq_dist(centre)
            <= #[trigger] y.sq_dist(centre) by {
            let ix = choose|ix: int| 0 <= ix < s1.len() && s1[ix] == x;
            let iy = choose|iy: int| 0 <= iy < s2.len() && s2[iy] == y;
            assert(all[ix] == x && all[iy + n / 2] == y);
        }
        assert(m1.last() == tail1 && m2[0] == head2 && m2.last() == last2);
        assert(bisect_step(input, centre, s1, s2, m1, m2, boundary1@));
        assert(bisection(input, boundary1@));
    }
    boundary1
}

/// The constraint that numbered tile `p` puts on the boundary.
pub open spec fn constraint_at(b: Board, boundary: Seq<TilePos>, p: TilePos, c: Constraint) -> bool {
    &&& b.in_bounds(p)
    &&& b.state(p) is UncoveredSafe
    &&& covered_around(b, p).len() > 0
    &&& c == (needed(b, p) as u8, mask_of(covered_around(b, p), boundary))
}

/// The constraint of numbered tile `p` over the boundary `bd`.
pub open spec fn constraint_of(b: Board, bd: Seq<TilePos>, p: TilePos) -> Constraint {
    (needed(b, p) as u8, mask_of(covered_around(b, p), bd))
}

/// The constraints of the first `rows` tiles of column `col`, top first.
pub open spec fn column_constraints(b: Board, bd: Seq<TilePos>, col: int, rows: int) -> Seq<
    Constraint,
>
    decreases rows,
{
    if rows <= 0 {
        seq![]
    } else {
        let prev = column_constraints(b, bd, col, rows - 1);
        let p = TilePos { col: col as usize, row: (rows - 1) as usize };
        if numbered_with_cover(b, p) {
            prev.push(constraint_of(b, bd, p))
        } else {
            prev
        }
    }
}

/// The constraints of the first `cols` columns, columns first, then rows.
pub open spec fn board_constraints(b: Board, bd: Seq<TilePos>, cols: int) -> Seq<Constraint>
    decreases cols,
{
    if cols <= 0 {
        seq![]
    } else {
        board_constraints(b, bd, cols - 1) + column_constraints(b, bd, cols - 1, b.h() as int)
    }
}

/// For each numbered tile with a covered neighbour, the count of bombs still
/// to find around it and the mask over the boundary of its covered neighbours.
pub fn get_boundary_constraints(board: &Board, covered_boundary: &[TilePos]) -> (r: Vec<Constraint>)
    requires
        board.wf(),
        covered_boundary@.len() <= 128,
    ensures
        forall|c: Constraint|
            r@.contains(c) <==> exists|p: TilePos| #[trigger]
                constraint_at(*board, covered_boundary@, p, c),
        constraints_fit(r@, covered_boundary@.len() as int),
        r@ == board_constraints(*board, covered_boundary@, board.w() as int),
{
    let ghost bd = covered_boundary@;
    let mut out: Vec<Constraint> = Vec::new();
    let mut col: usize = 0;
    while col < board.width()
        invariant
            board.wf(),
            bd == covered_boundary@,
            bd.len() <= 128,
            col <= board.w(),
            forall|c: Constraint|
                out@.contains(c) <==> exists|p: TilePos|
                    p.col < col && #[trigger] constraint_at(*board, bd, p, c),
            constraints_fit(out@, bd.len() as int),
            out@ == board_constraints(*board, bd, col as int),
        decreases board.w() - col,
    {
        let mut row: usize = 0;
        while row < board.height()
            invariant
                board.wf(),
                bd == covered_boundary@,
                bd.len() <= 128,
                col < board.w(),
                row <= board.h(),
                forall|c: Constraint|
                    out@.contains(c) <==> exists|p: TilePos|
                        visited(p, col as int, row as int) && #[trigger] constraint_at(
                            *board,
                            bd,
                            p,
                            c,
                        ),
                constraints_fit(out@, bd.len() as int),
                out@ == board_constraints(*board, bd, col as int) + column_constraints(
                    *board,
                    bd,
                    col as int,
                    row as int,
                ),
            decreases board.h() - row,
        {
            let pos = TilePos { col, row };
            let ghost before = out@;
            if let TileState::UncoveredSafe(n) = board.tile_state(pos) {
                let covered = covered_neighbours(board, pos);
                if covered.len() > 0 {
                    let num_bombs = num_bombs_around(board, pos);
                    let left = n.saturating_sub(num_bombs);
                    let mask = tile_vec_to_u128(covered.as_slice(), covered_boundary);
                    let c = (left, mask);
                    out.push(c);
                    proof {
                        assert(constraint_at(*board, bd, pos, c));
                        assert(fits(mask, bd.len() as int));
                        assert forall|i: int| 0 <= i < out@.len() implies fits(
                            #[trigger] out@[i].1,
                            bd.len() as int,
                        ) by {
                            if i < before.len() {
                                assert(out@[i] == before[i]);
                            }
                        }
                        assert forall|d: Constraint|
                            out@.contains(d) <==> (before.contains(d) || constraint_at(
                                *board,
                                bd,
                                pos,
                                d,
                            )) by {
                            crate::seq_facts::lemma_push_contains(before, c, d);
                        }
                    }
                } else {
                    assert forall|d: Constraint| !constraint_at(*board, bd, pos, d) by {}
                }
            } else {
                assert forall|d: Constraint| !constraint_at(*board, bd, pos, d) by {}
            }
            assert(forall|d: Constraint|
                out@.contains(d) <==> (before.contains(d) || constraint_at(*board, bd, pos, d)));
            assert(out@ == board_constraints(*board, bd, col as int) + column_constraints(
                *board,
                bd,
                col as int,
                row + 1,
            ));
            proof {
                assert forall|d: Constraint| out@.contains(d) implies exists|p: TilePos|
                    visited(p, col as int, row + 1) && #[trigger] constraint_at(*board, bd, p, d) by {
                    if before.contains(d) {
                        let p = choose|p: TilePos|
                            visited(p, col as int, row as int) && #[trigger] constraint_at(
                                *board,
                                bd,
                                p,
                                d,
                            );
                        assert(visited(p, col as int, row + 1));
                    } else {
                        assert(constraint_at(*board, bd, pos, d));
                        assert(visited(pos, col as int, row + 1));
                    }
                }
                assert forall|d: Constraint, p: TilePos|
                    visited(p, col as int, row + 1) && #[trigger] constraint_at(*board, bd, p, d)
                        implies out@.contains(d) by {
                    assert(out@.contains(d) <==> (before.contains(d) || constraint_at(
                        *board,
                        bd,
                        pos,
                        d,
                    )));
                    if p != pos {
                        assert(visited(p, col as int, row as int));
                        assert(before.contains(d));
                    }
                }
            }
            row = row + 1;
        }
        proof {
            assert forall|d: Constraint|
                out@.contains(d) <==> exists|p: TilePos|
                    p.col < col + 1 && #[trigger] constraint_at(*board, bd, p, d) by {
                if exists|p: TilePos| p.col < col + 1 && #[trigger] constraint_at(*board, bd, p, d) {
                    let p = choose|p: TilePos|
                        p.col < col + 1 && #[trigger] constraint_at(*board, bd, p, d);
                    assert(visited(p, col as int, board.h() as int));
                }
                if out@.contains(d) {
                    let p = choose|p: TilePos|
                        visited(p, col as int, board.h() as int) && #[trigger] constraint_at(
                            *board,
                            bd,
                            p,
                            d,
                        );
                    assert(p.col < col + 1);
                }
            }
            assert(out@ == board_constraints(*board, bd, col + 1));
        }
        col = col + 1;
    }
    proof {
        assert forall|d: Constraint|
            out@.contains(d) <==> exists|p: TilePos| #[trigger] constraint_at(*board, bd, p, d) by {
            if exists|p: TilePos| #[trigger] constraint_at(*board, bd, p, d) {
                let p = choose|p: TilePos| #[trigger] constraint_at(*board, bd, p, d);
                assert(p.col < col);
            }
        }
    }
    out
}

/// How many covered tiles around `q` are not yet on the boundary.
pub open spec fn growth(b: Board, boundary: Seq<TilePos>, q: TilePos) -> nat {
    minus(covered_around(b, q), boundary).len()
}

/// The tile off the boundary that brings the fewest new tiles onto it, the
/// earlier tile among equals.
fn non_boundary_tile(board: &Board, all_covered: &Vec<TilePos>, boundary: &Vec<TilePos>) -> (r:
    Option<TilePos>)
    requires
        board.wf(),
        forall|i: int| 0 <= i < all_covered@.len() ==> board.in_bounds(#[trigger] all_covered@[i]),
    ensures
        r matches Some(t) ==> {
            &&& all_covered@.contains(t)
            &&& !boundary@.contains(t)
            &&& forall|q: TilePos|
                all_covered@.contains(q) && !boundary@.contains(q) ==> growth(*board, boundary@, t)
                    < #[trigger] growth(*board, boundary@, q) || (growth(*board, boundary@, t) == growth(
                    *board,
                    boundary@,
                    q,
                ) && tile_le(t, q))
        },
        r is None ==> forall|q: TilePos| all_covered@.contains(q) ==> boundary@.contains(q),
{
    let mut best: Option<(usize, TilePos)> = None;
    let mut i: usize = 0;
    while i < all_covered.len()
        invariant
            board.wf(),
            forall|j: int|
                0 <= j < all_covered@.len() ==> board.in_bounds(#[trigger] all_covered@[j]),
            i <= all_covered@.len(),
            best is None ==> forall|j: int|
                0 <= j < i ==> boundary@.contains(#[trigger] all_covered@[j]),
            best matches Some((g, t)) ==> {
                &&& all_covered@.contains(t)
                &&& !boundary@.contains(t)
                &&& g == growth(*board, boundary@, t)
                &&& forall|j: int|
                    0 <= j < i && !boundary@.contains(#[trigger] all_covered@[j]) ==> g < growth(
                        *board,
                        boundary@,
                        all_covered@[j],
                    ) || (g == growth(*board, boundary@, all_covered@[j]) && tile_le(
                        t,
                        all_covered@[j],
                    ))
            },
        decreases all_covered@.len() - i,
    {
        let q = all_covered[i];
        proof {
            assert(all_covered@.contains(all_covered@[i as int]));
        }
        if !crate::bits::contains_pos(boundary.as_slice(), q) {
            let around = covered_neighbours(board, q);
            let fresh = set_difference(&around, boundary);
            let g = fresh.len();
            let better = match best {
                Some((bg, bt)) => g < bg || (g == bg && (q.col < bt.col || (q.col == bt.col && q.row
                    < bt.row))),
                None => true,
            };
            if better {
                best = Some((g, q));
            }
        }
        i = i + 1;
    }
    proof {
        assert forall|q: TilePos| #[trigger] all_covered@.contains(q) && best is None implies boundary@.contains(q) by {
            let j = choose|j: int| 0 <= j < all_covered@.len() && all_covered@[j] == q;
        }
        if best is Some {
            let (g, t) = best->0;
            assert forall|q: TilePos|
                all_covered@.contains(q) && !boundary@.contains(q) implies growth(*board, boundary@, t)
                < growth(*board, boundary@, q) || (growth(*board, boundary@, t) == growth(
                *board,
                boundary@,
                q,
            ) && tile_le(t, q)) by {
                let j = choose|j: int| 0 <= j < all_covered@.len() && all_covered@[j] == q;
            }
        }
    }
    match best {
        Some((_, t)) => Some(t),
        None => None,
    }
}

/// `d` is the greatest density of the groups holding `pos` whose bounds
/// agree.
pub open spec fn max_density(
    min_bombs: Map<Seq<TilePos>, u8>,
    max_bombs: Map<Seq<TilePos>, u8>,
    pos: TilePos,
    d: int,
) -> bool {
    &&& exists|k: Seq<TilePos>|
        #[trigger] exact_group(min_bombs, max_bombs, pos, k) && d == density(min_bombs, k)
    &&& forall|k: Seq<TilePos>|
        #[trigger] exact_group(min_bombs, max_bombs, pos, k) ==> density(min_bombs, k) <= d
}

/// The ranking of `pos` in the greedy guess: the greatest bomb density of
/// the groups holding it whose bounds agree, or the largest `usize` where
/// there is none.
pub open spec fn greedy_key(
    min_bombs: Map<Seq<TilePos>, u8>,
    max_bombs: Map<Seq<TilePos>, u8>,
    pos: TilePos,
) -> int {
    if exists|k: Seq<TilePos>| #[trigger] exact_group(min_bombs, max_bombs, pos, k) {
        choose|d: int| #[trigger] max_density(min_bombs, max_bombs, pos, d)
    } else {
        usize::MAX as int
    }
}

/// Bounds as `get_subset_bounds` gives them for `b`.
pub open spec fn bounds_of(b: Board, min_bombs: Map<Seq<TilePos>, u8>, max_bombs: Map<Seq<TilePos>, u8>) -> bool {
    &&& forall|bombs: Set<TilePos>|
        #[trigger] consistent(b, bombs) ==> lower_sound(min_bombs, bombs) && upper_sound(
            max_bombs,
            bombs,
        )
    &&& keys_ok(b, min_bombs)
    &&& keys_ok(b, max_bombs)
    &&& forall|p: TilePos| #[trigger] seeded(b, p, min_bombs, max_bombs)
}

/// `t` is the tile of `bd` with the lowest greedy key under bounds as
/// `get_subset_bounds` gives them, the earliest among equals.
pub open spec fn greedy_pick(b: Board, bd: Seq<TilePos>, t: TilePos) -> bool {
    exists|mn: Map<Seq<TilePos>, u8>, mx: Map<Seq<TilePos>, u8>, i: int|
        #![trigger bounds_of(b, mn, mx), bd[i]]
        bounds_of(b, mn, mx) && 0 <= i < bd.len() && bd[i] == t && (forall|j: int|
            0 <= j < bd.len() ==> greedy_key(mn, mx, t) <= #[trigger] greedy_key(mn, mx, bd[j]))
            && (forall|j: int| 0 <= j < i ==> greedy_key(mn, mx, t) < #[trigger] greedy_key(mn, mx, bd[j]))
}

fn greedy_key_of(min_bombs: &crate::deductions::SubsetBounds, max_bombs: &crate::deductions::SubsetBounds, pos: TilePos) -> (r: usize)
    ensures
        r == greedy_key(min_bombs@, max_bombs@, pos),
{
    match exact_density(min_bombs, max_bombs, pos) {
        Some(d) => {
            proof {
                let c = greedy_key(min_bombs@, max_bombs@, pos);
                let k1 = choose|k: Seq<TilePos>|
                    #[trigger] exact_group(min_bombs@, max_bombs@, pos, k) && d == density(
                        min_bombs@,
                        k,
                    );
                assert(exists|k: Seq<TilePos>| #[trigger] exact_group(min_bombs@, max_bombs@, pos, k));
                assert(max_density(min_bombs@, max_bombs@, pos, d as int));
                assert(max_density(min_bombs@, max_bombs@, pos, c));
                let k2 = choose|k: Seq<TilePos>|
                    #[trigger] exact_group(min_bombs@, max_bombs@, pos, k) && c == density(
                        min_bombs@,
                        k,
                    );
                assert(density(min_bombs@, k2) <= d);
                assert(density(min_bombs@, k1) <= c);
            }
            d
        },
        None => usize::MAX,
    }
}

/// For boundaries too large to enumerate: the boundary tile whose densest
/// group with an exact bound has the fewest bombs per tile, the first among
/// equals; groups without an exact bound count as the densest.
fn greedy_guess(board: &Board, covered_boundary: &Vec<TilePos>) -> (r: TilePos)
    requires
        board.wf(),
        covered_boundary@.len() > 0,
    ensures
        covered_boundary@.contains(r),
        greedy_pick(*board, covered_boundary@, r),
{
    let (min_bombs, max_bombs) = get_subset_bounds(board);
    let ghost mn = min_bombs@;
    let ghost mx = max_bombs@;
    let ghost bd = covered_boundary@;
    let mut best: usize = 0;
    let mut best_key: usize = greedy_key_of(&min_bombs, &max_bombs, covered_boundary[0]);
    let mut i: usize = 1;
    while i < covered_boundary.len()
        invariant
            1 <= i <= covered_boundary@.len(),
            bd == covered_boundary@,
            mn == min_bombs@,
            mx == max_bombs@,
            best < i,
            best_key == greedy_key(mn, mx, bd[best as int]),
            forall|j: int| 0 <= j < i ==> best_key <= #[trigger] greedy_key(mn, mx, bd[j]),
            forall|j: int| 0 <= j < best ==> best_key < #[trigger] greedy_key(mn, mx, bd[j]),
        decreases covered_boundary@.len() - i,
    {
        let key = greedy_key_of(&min_bombs, &max_bombs, covered_boundary[i]);
        if key < best_key {
            best = i;
            best_key = key;
        }
        i = i + 1;
    }
    let t = covered_boundary[best];
    proof {
        assert(covered_boundary@.contains(t));
        assert(bounds_of(*board, mn, mx));
        assert(bd[best as int] == t);
    }
    t
}

/// The largest grid side for which squared distances surely fit in a `usize`.
pub const MAX_EXACT_SIDE: usize = 32768;

/// The most boundary tiles whose bomb placements are enumerated exactly.
pub const MAX_EXACT_BOUNDARY: usize = 128;

/// What weighing the boundary's placements gives.
#[derive(Clone, Copy, PartialEq, Eq, Structural, Debug)]
pub enum Weighed {
    Pick(TilePos),
    NoLegalPlacement,
}

/// Whether some number of boundary bombs is both legal and possible with
/// `total_left` bombs left and `nb` tiles off the boundary.
fn any_live(totals: &Vec<usize>, total_left: usize, nb: usize) -> (r: bool)
    requires
        totals@.len() == 129,
    ensures
        r == (kmax(totals@, total_left as int, nb as int) >= 0),
{
    let ghost ts = totals@;
    let min_bombs: usize = if total_left > nb {
        total_left - nb
    } else {
        0
    };
    let mut k: usize = 129;
    while k > 0
        invariant
            k <= 129,
            totals@ == ts,
            ts.len() == 129,
            min_bombs == (if total_left > nb {
                total_left - nb
            } else {
                0
            }),
            top_live(ts, total_left as int, nb as int, 129) == top_live(
                ts,
                total_left as int,
                nb as int,
                k as int,
            ),
        decreases k,
    {
        if min_bombs <= k - 1 && k - 1 <= total_left && totals[k - 1] > 0 {
            return true;
        }
        k = k - 1;
    }
    false
}

/// How many covered tiles lie off the boundary.
pub open spec fn off_boundary(all_covered: Seq<TilePos>, boundary: Seq<TilePos>) -> int {
    all_covered.len() - boundary.len()
}

/// A list without repeats that is longer than another has a member the
/// other lacks.
proof fn lemma_some_off_boundary(all: Seq<TilePos>, bd: Seq<TilePos>)
    requires
        all.no_duplicates(),
        all.len() > bd.len(),
    ensures
        exists|q: TilePos| all.contains(q) && !bd.contains(q),
{
    broadcast use vstd::seq_lib::seq_to_set_is_finite;

    if forall|q: TilePos| all.contains(q) ==> bd.contains(q) {
        assert(all.to_set().subset_of(bd.to_set()));
        vstd::set_lib::lemma_len_subset(all.to_set(), bd.to_set());
        all.unique_seq_to_set();
        bd.lemma_cardinality_of_set();
        assert(false);
    }
}

/// A numbered tile with at least one covered neighbour.
pub open spec fn numbered_with_cover(b: Board, p: TilePos) -> bool {
    b.in_bounds(p) && b.state(p) is UncoveredSafe && covered_around(b, p).len() > 0
}

/// A placement of bombs on the boundary `bd`, as a mask over it, that meets
/// the count left at every numbered tile with a covered neighbour.
pub open spec fn board_legal(b: Board, bd: Seq<TilePos>, m: u128) -> bool {
    &&& fits(m, bd.len() as int)
    &&& forall|p: TilePos|
        #[trigger] numbered_with_cover(b, p) ==> satisfies(
            m,
            (needed(b, p) as u8, mask_of(covered_around(b, p), bd)),
        )
}

/// For each number of bombs, how many legal placements have a bomb on
/// boundary tile `t`.
pub open spec fn tile_counts(b: Board, bd: Seq<TilePos>, t: int) -> Seq<usize> {
    Seq::new(
        129,
        |k: int|
            Set::new(|m: u128| board_legal(b, bd, m) && ones(m) == k && bit(m, t)).len() as usize,
    )
}

/// For each number of bombs, how many legal placements there are.
pub open spec fn total_counts(b: Board, bd: Seq<TilePos>) -> Seq<usize> {
    Seq::new(129, |k: int| Set::new(|m: u128| board_legal(b, bd, m) && ones(m) == k).len() as usize)
}

/// The bombs left to place, none where more flags than bombs were placed.
pub open spec fn left_for_guess(b: Board) -> int {
    if b.bombs_left() < 0 {
        0
    } else {
        b.bombs_left()
    }
}

/// The scaled weight of each number of boundary bombs.
pub open spec fn guess_weights(b: Board, bd: Seq<TilePos>, nb: int) -> spec_fn(int) -> nat {
    |k: int| scaled_weight(total_counts(b, bd), left_for_guess(b), nb, k)
}

/// The scaled weight of each number of boundary bombs times the bombs it
/// leaves off the boundary.
pub open spec fn guess_omit_weights(b: Board, bd: Seq<TilePos>, nb: int) -> spec_fn(int) -> nat {
    |k: int|
        if k <= left_for_guess(b) {
            scaled_weight(total_counts(b, bd), left_for_guess(b), nb, k) * ((left_for_guess(b) - k) as nat)
        } else {
            0
        }
}

/// The weight of the legal placements with a bomb on boundary tile `t`.
pub open spec fn guess_unsafe(b: Board, bd: Seq<TilePos>, nb: int, t: int) -> nat {
    dot(tile_counts(b, bd, t), guess_weights(b, bd, nb), 129)
}

/// The weighted number of bombs that the legal placements leave off the
/// boundary.
pub open spec fn guess_omitted(b: Board, bd: Seq<TilePos>, nb: int) -> nat {
    dot(total_counts(b, bd), guess_omit_weights(b, bd, nb), 129)
}

/// Boundary tile `i` is the least likely to hold a bomb, the earlier tile
/// among equals.
pub open spec fn guess_best(b: Board, bd: Seq<TilePos>, nb: int, i: int) -> bool {
    &&& 0 <= i < bd.len()
    &&& forall|j: int|
        0 <= j < bd.len() ==> guess_unsafe(b, bd, nb, i) < #[trigger] guess_unsafe(b, bd, nb, j)
            || (guess_unsafe(b, bd, nb, i) == guess_unsafe(b, bd, nb, j) && tile_le(bd[i], bd[j]))
}

/// `t` is the safest boundary tile, and safer than the tiles off the
/// boundary where there are any.
pub open spec fn boundary_pick(b: Board, bd: Seq<TilePos>, nb: int, t: TilePos) -> bool {
    exists|i: int|
        #[trigger] guess_best(b, bd, nb, i) && t == bd[i] && (nb == 0 || guess_unsafe(b, bd, nb, i)
            * nb < guess_omitted(b, bd, nb))
}

/// The tiles off the boundary are at least as safe as the safest boundary
/// tile, and `t` is the one of them that brings the fewest new tiles onto the
/// boundary, the earlier tile among equals.
pub open spec fn off_pick(b: Board, bd: Seq<TilePos>, all: Seq<TilePos>, t: TilePos) -> bool {
    let nb = off_boundary(all, bd);
    &&& nb > 0
    &&& forall|i: int|
        #[trigger] guess_best(b, bd, nb, i) ==> guess_unsafe(b, bd, nb, i) * nb >= guess_omitted(
            b,
            bd,
            nb,
        )
    &&& all.contains(t)
    &&& !bd.contains(t)
    &&& forall|q: TilePos|
        all.contains(q) && !bd.contains(q) ==> growth(b, bd, t) < #[trigger] growth(b, bd, q) || (growth(
            b,
            bd,
            t,
        ) == growth(b, bd, q) && tile_le(t, q))
}

/// Weighs every legal placement of bombs on the boundary `covered_boundary`
/// and picks the tile most likely to be safe: the safest boundary tile, the
/// earlier one among equals, unless the tiles off the boundary are at least
/// as safe, in which case the one of those that brings the fewest new tiles
/// onto the boundary. `NoLegalPlacement` exactly where no placement is
/// legal.
fn get_high_probability_guess(
    covered_boundary: &Vec<TilePos>,
    all_covered: &Vec<TilePos>,
    board: &Board,
) -> (r: Weighed)
    requires
        board.wf(),
        0 < covered_boundary@.len() <= MAX_EXACT_BOUNDARY,
        covered_boundary@.len() <= all_covered@.len(),
        forall|q: TilePos| covered_boundary@.contains(q) ==> all_covered@.contains(q),
        forall|i: int| 0 <= i < all_covered@.len() ==> board.in_bounds(#[trigger] all_covered@[i]),
        all_covered@.no_duplicates(),
    ensures
        r is NoLegalPlacement <==> kmax(
            total_counts(*board, covered_boundary@),
            left_for_guess(*board),
            off_boundary(all_covered@, covered_boundary@),
        ) < 0,
        r matches Weighed::Pick(t) ==> all_covered@.contains(t),
        r matches Weighed::Pick(t) ==> boundary_pick(*board, covered_boundary@, off_boundary(
            all_covered@,
            covered_boundary@,
        ), t) || off_pick(*board, covered_boundary@, all_covered@, t),
        kmax(
            total_counts(*board, covered_boundary@),
            left_for_guess(*board),
            off_boundary(all_covered@, covered_boundary@),
        ) >= 0 ==> r is Pick,
{
    let ghost bd = covered_boundary@;
    let boundary_constraints = get_boundary_constraints(board, covered_boundary.as_slice());
    let total_left: usize = if board.num_bombs_left() < 0 {
        0
    } else {
        board.num_bombs_left() as usize
    };
    let num_non_boundary_covered = all_covered.len() - covered_boundary.len();
    let ghost nb = num_non_boundary_covered as int;
    assert(nb == off_boundary(all_covered@, bd));
    proof {
        if nb > 0 {
            lemma_some_off_boundary(all_covered@, bd);
        }
    }
    let ghost cs = boundary_constraints@;
    let ghost len = bd.len() as int;
    proof {
        assert forall|m: u128| legal(m, cs, len) <==> board_legal(*board, bd, m) by {
            if legal(m, cs, len) {
                assert forall|p: TilePos| #[trigger] numbered_with_cover(*board, p) implies satisfies(
                    m,
                    (needed(*board, p) as u8, mask_of(covered_around(*board, p), bd)),
                ) by {
                    let c = (needed(*board, p) as u8, mask_of(covered_around(*board, p), bd));
                    assert(constraint_at(*board, bd, p, c));
                    assert(cs.contains(c));
                    let w = choose|w: int| 0 <= w < cs.len() && cs[w] == c;
                    assert(satisfies(m, cs[w]));
                }
            }
            if board_legal(*board, bd, m) {
                assert forall|w: int| 0 <= w < cs.len() implies satisfies(m, #[trigger] cs[w]) by {
                    assert(cs.contains(cs[w]));
                    let p = choose|p: TilePos| #[trigger] constraint_at(*board, bd, p, cs[w]);
                    assert(numbered_with_cover(*board, p));
                }
            }
        }
    }
    let (per_tile, totals, _num_scenarios) = legal_scenario_info(
        &boundary_constraints,
        covered_boundary.len(),
    );
    proof {
        assert forall|k: int| 0 <= k < 129 implies #[trigger] totals@[k] == total_counts(*board, bd)[k] by {
            assert(scenarios_with_bombs(cs, len, k as nat) =~= Set::new(
                |m: u128| board_legal(*board, bd, m) && ones(m) == k,
            ));
        }
        assert(totals@ =~= total_counts(*board, bd));
        assert forall|t: int| 0 <= t < len implies #[trigger] per_tile@[t]@ == tile_counts(
            *board,
            bd,
            t,
        ) by {
            assert forall|k: int| 0 <= k < 129 implies per_tile@[t]@[k] == tile_counts(
                *board,
                bd,
                t,
            )[k] by {
                assert(scenarios_with_bomb_at(cs, len, t, k as nat) =~= Set::new(
                    |m: u128| board_legal(*board, bd, m) && ones(m) == k && bit(m, t),
                ));
            }
            assert(per_tile@[t]@ =~= tile_counts(*board, bd, t));
        }
    }
    assert(total_left as int == left_for_guess(*board));
    if !any_live(&totals, total_left, num_non_boundary_covered) {
        return Weighed::NoLegalPlacement;
    }
    let weights = match bomb_count_weights(&totals, total_left, num_non_boundary_covered) {
        Some(w) => w,
        None => {
            return Weighed::NoLegalPlacement;
        },
    };
    proof {
        assert forall|k: int| 0 <= k < 129 implies #[trigger] big_fn(weights@)(k) == guess_weights(
            *board,
            bd,
            nb,
        )(k) by {}
        assert forall|k: int| 0 <= k < 129 implies #[trigger] omit_fn(weights@, total_left as int)(k)
            == guess_omit_weights(*board, bd, nb)(k) by {}
        lemma_dot_ext(totals@, omit_fn(weights@, total_left as int), guess_omit_weights(*board, bd, nb), 129);
        assert forall|t: int| 0 <= t < len implies #[trigger] unsafe_weight(per_tile@, weights@, t)
            == guess_unsafe(*board, bd, nb, t) by {
            assert(per_tile@[t]@ == tile_counts(*board, bd, t));
            lemma_dot_ext(per_tile@[t]@, big_fn(weights@), guess_weights(*board, bd, nb), 129);
        }
        assert forall|i: int| is_best(per_tile@, weights@, bd, i) implies #[trigger] guess_best(
            *board,
            bd,
            nb,
            i,
        ) by {
            assert forall|j: int| 0 <= j < len implies guess_unsafe(*board, bd, nb, i) < #[trigger] guess_unsafe(
                *board,
                bd,
                nb,
                j,
            ) || (guess_unsafe(*board, bd, nb, i) == guess_unsafe(*board, bd, nb, j) && tile_le(
                bd[i],
                bd[j],
            )) by {
                assert(unsafe_weight(per_tile@, weights@, j) == guess_unsafe(*board, bd, nb, j));
                assert(unsafe_weight(per_tile@, weights@, i) == guess_unsafe(*board, bd, nb, i));
            }
        }
        assert forall|i: int| #[trigger] guess_best(*board, bd, nb, i) implies is_best(
            per_tile@,
            weights@,
            bd,
            i,
        ) by {
            assert forall|j: int| 0 <= j < len implies unsafe_weight(per_tile@, weights@, i) < #[trigger] unsafe_weight(
                per_tile@,
                weights@,
                j,
            ) || (unsafe_weight(per_tile@, weights@, i) == unsafe_weight(per_tile@, weights@, j)
                && tile_le(bd[i], bd[j])) by {
                assert(unsafe_weight(per_tile@, weights@, j) == guess_unsafe(*board, bd, nb, j));
                assert(unsafe_weight(per_tile@, weights@, i) == guess_unsafe(*board, bd, nb, i));
                assert(guess_unsafe(*board, bd, nb, j) >= 0);
            }
        }
        assert(omitted_weight(totals@, weights@, total_left as int) == guess_omitted(*board, bd, nb));
    }
    let choice = choose_guess(
        &per_tile,
        &totals,
        &weights,
        covered_boundary,
        total_left,
        num_non_boundary_covered,
    );
    match choice {
        Guess::Boundary(i) => {
            let t = covered_boundary[i];
            proof {
                assert(is_best(per_tile@, weights@, bd, i as int));
                assert(guess_best(*board, bd, nb, i as int));
                assert(unsafe_weight(per_tile@, weights@, i as int) == guess_unsafe(
                    *board,
                    bd,
                    nb,
                    i as int,
                ));
                assert(covered_boundary@.contains(t));
                assert(guess_best(*board, bd, off_boundary(all_covered@, bd), i as int) && t == bd[i as int]
                    && (off_boundary(all_covered@, bd) == 0 || guess_unsafe(
                    *board,
                    bd,
                    off_boundary(all_covered@, bd),
                    i as int,
                ) * off_boundary(all_covered@, bd) < guess_omitted(
                    *board,
                    bd,
                    off_boundary(all_covered@, bd),
                )));
            }
            Weighed::Pick(t)
        },
        Guess::Elsewhere => {
            let found = non_boundary_tile(board, all_covered, covered_boundary);
            proof {
                if let Some(tt) = found {
                    assert forall|q: TilePos|
                        all_covered@.contains(q) && !covered_boundary@.contains(q) implies growth(
                        *board,
                        covered_boundary@,
                        tt,
                    ) < growth(*board, covered_boundary@, q) || (growth(
                        *board,
                        covered_boundary@,
                        tt,
                    ) == growth(*board, covered_boundary@, q) && tile_le(tt, q)) by {}
                }
                assert forall|i: int| #[trigger] guess_best(*board, bd, nb, i) implies guess_unsafe(
                    *board,
                    bd,
                    nb,
                    i,
                ) * nb >= guess_omitted(*board, bd, nb) by {
                    assert(is_best(per_tile@, weights@, bd, i));
                    assert(unsafe_weight(per_tile@, weights@, i) == guess_unsafe(*board, bd, nb, i));
                }
                assert(nb > 0);
                assert(forall|i: int|
                    #[trigger] guess_best(*board, bd, off_boundary(all_covered@, bd), i)
                        ==> guess_unsafe(*board, bd, off_boundary(all_covered@, bd), i)
                        * off_boundary(all_covered@, bd) >= guess_omitted(
                        *board,
                        bd,
                        off_boundary(all_covered@, bd),
                    ));
                if let Some(tt) = found {
                    assert(all_covered@.contains(tt));
                    assert(!bd.contains(tt));
                    assert(off_boundary(all_covered@, bd) > 0);
                    assert(forall|q: TilePos|
                        all_covered@.contains(q) && !bd.contains(q) ==> growth(*board, bd, tt)
                            < growth(*board, bd, q) || (growth(*board, bd, tt) == growth(
                            *board,
                            bd,
                            q,
                        ) && tile_le(tt, q)));
                    assert(off_pick(*board, bd, all_covered@, tt));
                }
            }
            match found {
                Some(t) => Weighed::Pick(t),
                None => {
                    proof {
                        let q = choose|q: TilePos| all_covered@.contains(q) && !bd.contains(q);
                        assert(all_covered@.contains(q));
                    }
                    Weighed::NoLegalPlacement
                },
            }
        },
    }
}

/// The boundary in the order of `sensible_ordering`.
fn order_boundary(covered_boundary: Vec<TilePos>, all_covered: &Vec<TilePos>, board: &Board) -> (r:
    Vec<TilePos>)
    requires
        board.wf(),
        board.w() <= MAX_EXACT_SIDE,
        board.h() <= MAX_EXACT_SIDE,
        forall|q: TilePos| covered_boundary@.contains(q) ==> all_covered@.contains(q),
        forall|i: int| 0 <= i < all_covered@.len() ==> board.in_bounds(#[trigger] all_covered@[i]),
    ensures
        r@.to_multiset() == covered_boundary@.to_multiset(),
        r@.len() == covered_boundary@.len(),
        forall|q: TilePos| r@.contains(q) <==> covered_boundary@.contains(q),
{
    let ghost input = covered_boundary@;
    proof {
        assert forall|a: TilePos, b: TilePos|
            input.contains(a) && input.contains(b) implies #[trigger] a.sq_dist(b) <= usize::MAX by {
            let i = choose|i: int| 0 <= i < all_covered@.len() && all_covered@[i] == a;
            let j = choose|j: int| 0 <= j < all_covered@.len() && all_covered@[j] == b;
            assert(board.in_bounds(a) && board.in_bounds(b));
            let dc = crate::board::abs_diff_spec(a.col, b.col);
            let dr = crate::board::abs_diff_spec(a.row, b.row);
            assert(dc * dc + dr * dr <= 0x7fff_ffff) by (nonlinear_arith)
                requires
                    dc < 32768,
                    dr < 32768,
            ;
        }
    }
    let r = sensible_ordering(covered_boundary);
    proof {
        r@.to_multiset_ensures();
        input.to_multiset_ensures();
        assert forall|q: TilePos| r@.contains(q) <==> input.contains(q) by {
            lemma_multiset_contains(r@, input, q);
        }
    }
    r
}

/// The covered tiles, columns first, then rows.
fn all_covered_tiles(board: &Board) -> (r: Vec<TilePos>)
    requires
        board.wf(),
    ensures
        crate::deductions::sorted_tiles(r@),
        forall|q: TilePos|
            r@.contains(q) <==> (board.in_bounds(q) && board.state(q) == TileState::Covered),
        forall|i: int| 0 <= i < r@.len() ==> board.in_bounds(#[trigger] r@[i]),
{
    let mut out: Vec<TilePos> = Vec::new();
    let mut col: usize = 0;
    while col < board.width()
        invariant
            board.wf(),
            col <= board.w(),
            forall|q: TilePos|
                out@.contains(q) <==> (board.in_bounds(q) && q.col < col && board.state(q)
                    == TileState::Covered),
            forall|i: int| 0 <= i < out@.len() ==> board.in_bounds(#[trigger] out@[i]),
            crate::deductions::sorted_tiles(out@),
            forall|i: int| 0 <= i < out@.len() ==> (#[trigger] out@[i]).col < col,
        decreases board.w() - col,
    {
        let mut row: usize = 0;
        while row < board.height()
            invariant
                board.wf(),
                col < board.w(),
                row <= board.h(),
                forall|q: TilePos|
                    out@.contains(q) <==> (board.in_bounds(q) && visited(q, col as int, row as int)
                        && board.state(q) == TileState::Covered),
                forall|i: int| 0 <= i < out@.len() ==> board.in_bounds(#[trigger] out@[i]),
                crate::deductions::sorted_tiles(out@),
                forall|i: int|
                    0 <= i < out@.len() ==> crate::agent::visited(#[trigger] out@[i], col as int, row as int),
            decreases board.h() - row,
        {
            let pos = TilePos { col, row };
            let ghost before = out@;
            if board.tile_state(pos) == TileState::Covered {
                out.push(pos);
            }
            proof {
                assert forall|q: TilePos|
                    out@.contains(q) <==> (board.in_bounds(q) && visited(q, col as int, row + 1)
                        && board.state(q) == TileState::Covered) by {
                    crate::seq_facts::lemma_push_contains(before, pos, q);
                }
                assert forall|i: int|
                    0 <= i < out@.len() implies crate::agent::visited(
                    #[trigger] out@[i],
                    col as int,
                    row + 1,
                ) by {
                    if i < before.len() {
                        assert(out@[i] == before[i]);
                    }
                }
                assert forall|a: int, b: int| 0 <= a < b < out@.len() implies crate::board::tile_lt(
                    #[trigger] out@[a],
                    #[trigger] out@[b],
                ) by {
                    assert(out@[a] == before[a]);
                    if b < before.len() {
                        assert(out@[b] == before[b]);
                    }
                }
            }
            row = row + 1;
        }
        proof {
            assert forall|i: int| 0 <= i < out@.len() implies (#[trigger] out@[i]).col < col + 1 by {
                assert(crate::agent::visited(out@[i], col as int, board.h() as int));
            }
        }
        col = col + 1;
    }
    out
}

/// No placement of bombs on the boundary, listed in some order, agrees with
/// the numbers and leaves a number of bombs that the other covered tiles can
/// hold.
pub open spec fn impossible_board(b: Board) -> bool {
    exists|bd: Seq<TilePos>, all: Seq<TilePos>|
        #![trigger boundary_order(b, bd), covered_list(b, all)]
        boundary_order(b, bd) && covered_list(b, all) && 0 < bd.len() && kmax(
            total_counts(b, bd),
            left_for_guess(b),
            off_boundary(all, bd),
        ) < 0
}

/// `bd` lists the boundary: the covered tiles next to a revealed one.
pub open spec fn boundary_order(b: Board, bd: Seq<TilePos>) -> bool {
    forall|q: TilePos|
        bd.contains(q) <==> (b.in_bounds(q) && b.state(q) == TileState::Covered && revealed_around(
            b,
            q,
        ).len() > 0)
}

/// `all` lists every covered tile once.
pub open spec fn covered_list(b: Board, all: Seq<TilePos>) -> bool {
    &&& all.no_duplicates()
    &&& forall|q: TilePos| all.contains(q) <==> (b.in_bounds(q) && b.state(q) == TileState::Covered)
}

/// The weighted choice over the boundary `bd` gives `t`, where it can be
/// computed and some tile lies off the boundary.
pub open spec fn weighted_guess(b: Board, bd: Seq<TilePos>, all: Seq<TilePos>, t: TilePos) -> bool {
    boundary_pick(b, bd, off_boundary(all, bd), t) || off_pick(b, bd, all, t)
}

/// A tile to uncover when no move is certain: with no covered tile next to
/// a number, the first covered tile in column-then-row order; with a boundary
/// of at most 128 tiles, the weighted choice over the boundary, in the order
/// `sensible_ordering` gives it; with a larger boundary, a tile picked from
/// the subset bounds. `None` where no tile is covered, or where no placement of bombs
/// on an enumerable boundary agrees with the board and the bombs left.
pub fn make_guess(board: &Board) -> (r: Option<Action>)
    requires
        board.wf(),
    ensures
        (forall|q: TilePos| board.in_bounds(q) ==> board.state(q) != TileState::Covered) ==> r is None,
        r is None ==> (forall|q: TilePos| board.in_bounds(q) ==> board.state(q) != TileState::Covered)
            || impossible_board(*board),
        r matches Some(a) ==> a.action_type == ActionType::Uncover && board.in_bounds(a.pos)
            && board.state(a.pos) == TileState::Covered,
        (forall|q: TilePos|
            board.in_bounds(q) && board.state(q) == TileState::Covered ==> revealed_around(
                *board,
                q,
            ).len() == 0) ==> (r matches Some(a) ==> forall|q: TilePos|
            board.in_bounds(q) && board.state(q) == TileState::Covered ==> tile_le(a.pos, q)),
        exists|bd: Seq<TilePos>, all: Seq<TilePos>|
            #![trigger boundary_order(*board, bd), covered_list(*board, all)]
            boundary_order(*board, bd) && covered_list(*board, all) && (0 < bd.len()
                <= MAX_EXACT_BOUNDARY && board.w() <= MAX_EXACT_SIDE && board.h() <= MAX_EXACT_SIDE
                && kmax(total_counts(*board, bd), left_for_guess(*board), off_boundary(all, bd)) >= 0
                ==> (r matches Some(a)
                && weighted_guess(
                *board,
                bd,
                all,
                a.pos,
            ))) && (0 < bd.len() && (bd.len() > MAX_EXACT_BOUNDARY || board.w() > MAX_EXACT_SIDE
                || board.h() > MAX_EXACT_SIDE) ==> (r matches Some(a) && greedy_pick(
                *board,
                bd,
                a.pos,
            ))),
        r matches Some(a) ==> (exists|bd: Seq<TilePos>, all: Seq<TilePos>|
            #![trigger boundary_order(*board, bd), covered_list(*board, all)]
            boundary_order(*board, bd) && covered_list(*board, all) && (bd.len() == 0
                || weighted_guess(*board, bd, all, a.pos) || greedy_pick(*board, bd, a.pos))),
{
    let all_covered = all_covered_tiles(board);
    let ghost all = all_covered@;
    proof {
        assert(all.no_duplicates()) by {
            assert forall|a: int, b: int| 0 <= a < all.len() && 0 <= b < all.len() && a != b implies all[a]
                != all[b] by {
                if a < b {
                    assert(crate::board::tile_lt(all[a], all[b]));
                } else {
                    assert(crate::board::tile_lt(all[b], all[a]));
                }
            }
        }
        assert(covered_list(*board, all));
    }
    if all_covered.len() == 0 {
        proof {
            assert forall|q: TilePos| board.in_bounds(q) implies board.state(q)
                != TileState::Covered by {
                if board.state(q) == TileState::Covered {
                    assert(all_covered@.contains(q));
                }
            }
            assert(boundary_order(*board, Seq::<TilePos>::empty()));
        }
        return None;
    }
    proof {
        assert(all_covered@.contains(all_covered@[0]));
    }
    let mut covered_boundary: Vec<TilePos> = Vec::new();
    let mut i: usize = 0;
    while i < all_covered.len()
        invariant
            board.wf(),
            all == all_covered@,
            i <= all_covered@.len(),
            forall|j: int| 0 <= j < all_covered@.len() ==> board.in_bounds(#[trigger] all_covered@[j]),
            covered_boundary@.len() <= i,
            forall|q: TilePos|
                covered_boundary@.contains(q) <==> (all.take(i as int).contains(q) && revealed_around(
                    *board,
                    q,
                ).len() > 0),
        decreases all_covered@.len() - i,
    {
        let pos = all_covered[i];
        let ghost before = covered_boundary@;
        let revealed = uncovered_neighbours(board, pos);
        if revealed.len() > 0 {
            covered_boundary.push(pos);
        }
        proof {
            assert forall|q: TilePos|
                covered_boundary@.contains(q) <==> (all.take(i + 1).contains(q) && revealed_around(
                    *board,
                    q,
                ).len() > 0) by {
                crate::seq_facts::lemma_push_contains(before, pos, q);
                crate::seq_facts::lemma_take_step(all, i as int, q);
            }
        }
        i = i + 1;
    }
    proof {
        assert(all.take(all.len() as int) == all);
        assert(boundary_order(*board, covered_boundary@));
        assert forall|q: TilePos| covered_boundary@.contains(q) implies all_covered@.contains(q) by {}
    }
    if covered_boundary.len() == 0 {
        let t = all_covered[0];
        proof {
            assert forall|q: TilePos|
                board.in_bounds(q) && board.state(q) == TileState::Covered implies tile_le(t, q) by {
                assert(all.contains(q));
                let w = choose|w: int| 0 <= w < all.len() && all[w] == q;
                if w > 0 {
                    assert(crate::board::tile_lt(all[0], all[w]));
                }
            }
        }
        return Some(Action::uncover(t));
    }
    proof {
        assert(covered_boundary@.contains(covered_boundary@[0]));
    }
    if covered_boundary.len() <= MAX_EXACT_BOUNDARY && board.width() <= MAX_EXACT_SIDE
        && board.height() <= MAX_EXACT_SIDE {
        let ordered = order_boundary(covered_boundary.clone(), &all_covered, board);
        proof {
            assert(boundary_order(*board, ordered@));
        }
        match get_high_probability_guess(&ordered, &all_covered, board) {
            Weighed::Pick(t) => {
                proof {
                    assert(weighted_guess(*board, ordered@, all, t));
                }
                return Some(Action::uncover(t));
            },
            Weighed::NoLegalPlacement => {
                proof {
                    assert(impossible_board(*board));
                }
                return None;
            },
        }
    }
    let t = greedy_guess(board, &covered_boundary);
    proof {
        assert(covered_boundary@.contains(t));
        assert(all.contains(t));
    }
    Some(Action::uncover(t))
}

} // verus!
