use vstd::prelude::*;

use itertools::Itertools;

use crate::agent::{
    covered_around, covered_neighbours, deduplicate, flagged_around, lemma_covered_neighbour,
    num_bombs_around, push_actions, sat_sub,
};
use crate::board::{tile_lt, Action, ActionType, Board, TilePos, TileState};
use crate::seq_facts::{lemma_drop_last_contains, lemma_push_contains, lemma_take_step};

verus! {

/// The `k`-element combinations of `s`, in lexicographic order of positions.
pub open spec fn combos(s: Seq<TilePos>, k: int) -> Seq<Seq<TilePos>>
    decreases s.len(),
{
    if k <= 0 {
        seq![seq![]]
    } else if s.len() == 0 {
        seq![]
    } else {
        combos(s.drop_first(), k - 1).map_values(|c: Seq<TilePos>| seq![s[0]] + c) + combos(
            s.drop_first(),
            k,
        )
    }
}

/// Relies on `itertools::Itertools::combinations`: the `k`-element
/// combinations of the items, in lexicographic order of their positions.
#[verifier::external_body]
fn combinations_of(elts: &[TilePos], k: usize) -> (r: Vec<Vec<TilePos>>)
    requires
        k >= 1,
    ensures
        r@.map_values(|v: Vec<TilePos>| v@) == combos(elts@, k as int),
{
    elts.iter().copied().combinations(k).collect()
}

/// Every member of a combination is a member of `s`; a combination of a list
/// without repeats has none.
pub proof fn lemma_combos(s: Seq<TilePos>, k: int)
    ensures
        forall|i: int|
            0 <= i < combos(s, k).len() ==> {
                &&& (#[trigger] combos(s, k)[i]).len() == if k <= 0 {
                    0
                } else {
                    k
                }
                &&& forall|x: TilePos| combos(s, k)[i].contains(x) ==> s.contains(x)
                &&& s.no_duplicates() ==> combos(s, k)[i].no_duplicates()
            },
    decreases s.len(),
{
    if k > 0 && s.len() > 0 {
        let rest = s.drop_first();
        lemma_combos(rest, k - 1);
        lemma_combos(rest, k);
        let left = combos(rest, k - 1).map_values(|c: Seq<TilePos>| seq![s[0]] + c);
        let all = combos(s, k);
        assert(all == left + combos(rest, k));
        assert forall|x: TilePos| rest.contains(x) implies s.contains(x) by {
            let w = choose|w: int| 0 <= w < rest.len() && rest[w] == x;
            assert(s[w + 1] == x);
        }
        assert forall|i: int| 0 <= i < all.len() implies {
            &&& (#[trigger] all[i]).len() == k
            &&& forall|x: TilePos| all[i].contains(x) ==> s.contains(x)
            &&& s.no_duplicates() ==> all[i].no_duplicates()
        } by {
            if i < left.len() {
                let c = combos(rest, k - 1)[i];
                let e = seq![s[0]] + c;
                assert(all[i] == e);
                assert forall|x: TilePos| e.contains(x) implies s.contains(x) by {
                    let w = choose|w: int| 0 <= w < e.len() && e[w] == x;
                    if w == 0 {
                        assert(s[0] == x);
                    } else {
                        assert(c[w - 1] == x);
                        assert(c.contains(x));
                    }
                }
                if s.no_duplicates() {
                    assert(rest.no_duplicates()) by {
                        assert forall|a: int, b: int|
                            0 <= a < rest.len() && 0 <= b < rest.len() && a != b implies rest[a]
                            != rest[b] by {
                            assert(rest[a] == s[a + 1] && rest[b] == s[b + 1]);
                        }
                    }
                    assert forall|a: int, b: int|
                        0 <= a < e.len() && 0 <= b < e.len() && a != b implies e[a] != e[b] by {
                        if a > 0 && b > 0 {
                            assert(e[a] == c[a - 1] && e[b] == c[b - 1]);
                        } else if a == 0 {
                            assert(e[b] == c[b - 1]);
                            assert(c.contains(e[b]));
                            assert(rest.contains(e[b]));
                            let w = choose|w: int| 0 <= w < rest.len() && rest[w] == e[b];
                            assert(s[w + 1] == e[b]);
                        } else {
                            assert(e[a] == c[a - 1]);
                            assert(c.contains(e[a]));
                            assert(rest.contains(e[a]));
                            let w = choose|w: int| 0 <= w < rest.len() && rest[w] == e[a];
                            assert(s[w + 1] == e[a]);
                        }
                    }
                }
            } else {
                assert(all[i] == combos(rest, k)[i - left.len()]);
                if s.no_duplicates() {
                    assert(rest.no_duplicates()) by {
                        assert forall|a: int, b: int|
                            0 <= a < rest.len() && 0 <= b < rest.len() && a != b implies rest[a]
                            != rest[b] by {
                            assert(rest[a] == s[a + 1] && rest[b] == s[b + 1]);
                        }
                    }
                }
            }
        }
    }
}

/// The tiles of `s` come in strictly increasing column-then-row order.
pub open spec fn sorted_tiles(s: Seq<TilePos>) -> bool {
    forall|a: int, b: int| 0 <= a < b < s.len() ==> tile_lt(#[trigger] s[a], #[trigger] s[b])
}

/// Every sorted list of members of a sorted list is one of its combinations.
pub proof fn lemma_combos_complete(s: Seq<TilePos>, t: Seq<TilePos>)
    requires
        sorted_tiles(s),
        sorted_tiles(t),
        forall|x: TilePos| t.contains(x) ==> s.contains(x),
    ensures
        combos(s, t.len() as int).contains(t),
    decreases s.len(),
{
    if t.len() == 0 {
        assert(t =~= seq![]);
        assert(combos(s, 0)[0] == t);
    } else if s.len() == 0 {
        assert(t.contains(t[0]));
    } else {
        let rest = s.drop_first();
        assert(sorted_tiles(rest)) by {
            assert forall|a: int, b: int| 0 <= a < b < rest.len() implies tile_lt(
                #[trigger] rest[a],
                #[trigger] rest[b],
            ) by {
                assert(rest[a] == s[a + 1] && rest[b] == s[b + 1]);
            }
        }
        assert(t.contains(t[0]));
        let j0 = choose|j: int| 0 <= j < s.len() && s[j] == t[0];
        let k = t.len() as int;
        let left = combos(rest, k - 1).map_values(|c: Seq<TilePos>| seq![s[0]] + c);
        assert(combos(s, k) == left + combos(rest, k));
        if t[0] == s[0] {
            let t2 = t.drop_first();
            assert(sorted_tiles(t2)) by {
                assert forall|a: int, b: int| 0 <= a < b < t2.len() implies tile_lt(
                    #[trigger] t2[a],
                    #[trigger] t2[b],
                ) by {
                    assert(t2[a] == t[a + 1] && t2[b] == t[b + 1]);
                }
            }
            assert forall|x: TilePos| t2.contains(x) implies rest.contains(x) by {
                let i = choose|i: int| 0 <= i < t2.len() && t2[i] == x;
                assert(t[i + 1] == x);
                assert(tile_lt(t[0], t[i + 1]));
                assert(t.contains(x));
                let j = choose|j: int| 0 <= j < s.len() && s[j] == x;
                assert(j != 0);
                assert(rest[j - 1] == x);
            }
            lemma_combos_complete(rest, t2);
            let cr = combos(rest, k - 1);
            let w = choose|w: int| 0 <= w < cr.len() && cr[w] == t2;
            assert(seq![s[0]] + t2 =~= t);
            assert(left[w] == t);
            assert(combos(s, k)[w] == t);
        } else {
            if j0 > 0 {
                assert(tile_lt(s[0], s[j0]));
            }
            assert forall|x: TilePos| t.contains(x) implies rest.contains(x) by {
                let i = choose|i: int| 0 <= i < t.len() && t[i] == x;
                if i > 0 {
                    assert(tile_lt(t[0], t[i]));
                }
                let j = choose|j: int| 0 <= j < s.len() && s[j] == x;
                assert(j != 0);
                assert(rest[j - 1] == x);
            }
            lemma_combos_complete(rest, t);
            let cr = combos(rest, k);
            let w = choose|w: int| 0 <= w < cr.len() && cr[w] == t;
            assert(combos(s, k)[left.len() + w] == t);
        }
    }
}

/// A combination of at least two and at most `max_size` tiles is among the
/// subsets up to that size.
pub proof fn lemma_subsets_upto_contains(s: Seq<TilePos>, t: Seq<TilePos>, max_size: int)
    requires
        2 <= t.len() <= max_size,
        combos(s, t.len() as int).contains(t),
    ensures
        subsets_upto(s, max_size).contains(t),
    decreases max_size,
{
    let a = subsets_upto(s, max_size - 1);
    assert(subsets_upto(s, max_size) == a + combos(s, max_size));
    if t.len() == max_size {
        let cm = combos(s, max_size);
        let w = choose|w: int| 0 <= w < cm.len() && cm[w] == t;
        assert(subsets_upto(s, max_size)[a.len() + w] == t);
    } else {
        lemma_subsets_upto_contains(s, t, max_size - 1);
        let w = choose|w: int| 0 <= w < a.len() && a[w] == t;
        assert(subsets_upto(s, max_size)[w] == t);
    }
}

/// The combinations of `elts` of every size from 2 to `max_size`, smaller
/// sizes first.
pub open spec fn subsets_upto(elts: Seq<TilePos>, max_size: int) -> Seq<Seq<TilePos>>
    decreases max_size,
{
    if max_size < 2 {
        seq![]
    } else {
        subsets_upto(elts, max_size - 1) + combos(elts, max_size)
    }
}

pub proof fn lemma_subsets_upto(elts: Seq<TilePos>, max_size: int)
    ensures
        forall|i: int|
            0 <= i < subsets_upto(elts, max_size).len() ==> {
                &&& 2 <= (#[trigger] subsets_upto(elts, max_size)[i]).len() <= max_size
                &&& forall|x: TilePos|
                    subsets_upto(elts, max_size)[i].contains(x) ==> elts.contains(x)
                &&& elts.no_duplicates() ==> subsets_upto(elts, max_size)[i].no_duplicates()
            },
    decreases max_size,
{
    if max_size >= 2 {
        lemma_subsets_upto(elts, max_size - 1);
        lemma_combos(elts, max_size);
        let a = subsets_upto(elts, max_size - 1);
        let all = subsets_upto(elts, max_size);
        assert forall|i: int| 0 <= i < all.len() implies {
            &&& 2 <= (#[trigger] all[i]).len() <= max_size
            &&& forall|x: TilePos| all[i].contains(x) ==> elts.contains(x)
            &&& elts.no_duplicates() ==> all[i].no_duplicates()
        } by {
            if i < a.len() {
                assert(all[i] == a[i]);
            } else {
                assert(all[i] == combos(elts, max_size)[i - a.len()]);
            }
        }
    }
}

/// The combinations of `elts` of every size from 2 to `max_size`.
pub fn subsets(elts: &[TilePos], max_size: usize) -> (r: Vec<Vec<TilePos>>)
    ensures
        r@.map_values(|v: Vec<TilePos>| v@) == subsets_upto(elts@, max_size as int),
{
    let mut out: Vec<Vec<TilePos>> = Vec::new();
    if max_size < 2 {
        assert(out@.map_values(|v: Vec<TilePos>| v@) =~= subsets_upto(elts@, max_size as int));
        return out;
    }
    let mut k: usize = 2;
    while k <= max_size
        invariant
            2 <= k <= max_size + 1,
            out@.map_values(|v: Vec<TilePos>| v@) == subsets_upto(elts@, k - 1),
        decreases max_size + 1 - k,
    {
        let mut part = combinations_of(elts, k);
        let ghost before = out@;
        let ghost p = part@;
        out.append(&mut part);
        proof {
            assert(out@ == before + p);
            assert(out@.map_values(|v: Vec<TilePos>| v@) =~= before.map_values(
                |v: Vec<TilePos>| v@,
            ) + p.map_values(|v: Vec<TilePos>| v@));
        }
        if k == max_size {
            return out;
        }
        k = k + 1;
    }
    out
}

/// The members of `s` that are not in `o`, in order.
pub open spec fn minus(s: Seq<TilePos>, o: Seq<TilePos>) -> Seq<TilePos>
    decreases s.len(),
{
    if s.len() == 0 {
        seq![]
    } else if o.contains(s.last()) {
        minus(s.drop_last(), o)
    } else {
        minus(s.drop_last(), o).push(s.last())
    }
}

pub proof fn lemma_minus(s: Seq<TilePos>, o: Seq<TilePos>)
    ensures
        forall|x: TilePos| minus(s, o).contains(x) <==> (s.contains(x) && !o.contains(x)),
        minus(s, o).len() <= s.len(),
        (exists|x: TilePos| s.contains(x) && o.contains(x)) ==> minus(s, o).len() < s.len(),
        s.no_duplicates() ==> minus(s, o).no_duplicates(),
    decreases s.len(),
{
    if s.len() > 0 {
        let rest = s.drop_last();
        lemma_minus(rest, o);
        assert forall|x: TilePos| minus(s, o).contains(x) <==> (s.contains(x) && !o.contains(x)) by {
            lemma_drop_last_contains(s, x);
            lemma_push_contains(minus(rest, o), s.last(), x);
        }
        if exists|x: TilePos| s.contains(x) && o.contains(x) {
            let x = choose|x: TilePos| s.contains(x) && o.contains(x);
            lemma_drop_last_contains(s, x);
        }
        if s.no_duplicates() {
            assert(rest.no_duplicates()) by {
                assert forall|a: int, b: int|
                    0 <= a < rest.len() && 0 <= b < rest.len() && a != b implies rest[a]
                    != rest[b] by {
                    assert(rest[a] == s[a] && rest[b] == s[b]);
                }
            }
            if !o.contains(s.last()) {
                let m = minus(rest, o);
                assert(!m.contains(s.last())) by {
                    if m.contains(s.last()) {
                        assert(rest.contains(s.last()));
                        let w = choose|w: int| 0 <= w < rest.len() && rest[w] == s.last();
                        assert(s[w] == s[s.len() - 1]);
                    }
                }
                assert forall|a: int, b: int|
                    0 <= a < m.len() + 1 && 0 <= b < m.len() + 1 && a != b implies m.push(
                    s.last(),
                )[a] != m.push(s.last())[b] by {
                    if a < m.len() && b < m.len() {
                    } else if a < m.len() {
                        assert(m.contains(m[a]));
                    } else {
                        assert(m.contains(m[b]));
                    }
                }
            }
        }
    }
}

/// The tiles of `this` that are not in `other`, in order.
pub fn set_difference(this: &Vec<TilePos>, other: &Vec<TilePos>) -> (r: Vec<TilePos>)
    ensures
        r@ == minus(this@, other@),
{
    let mut out: Vec<TilePos> = Vec::new();
    let mut i: usize = 0;
    while i < this.len()
        invariant
            i <= this@.len(),
            out@ == minus(this@.take(i as int), other@),
        decreases this@.len() - i,
    {
        proof {
            assert(this@.take(i + 1).drop_last() == this@.take(i as int));
        }
        if !crate::bits::contains_pos(other.as_slice(), this[i]) {
            out.push(this[i]);
        }
        i = i + 1;
    }
    assert(this@.take(this@.len() as int) == this@);
    out
}

fn same_tiles(a: &Vec<TilePos>, b: &Vec<TilePos>) -> (r: bool)
    ensures
        r == (a@ == b@),
{
    if a.len() != b.len() {
        return false;
    }
    let mut i: usize = 0;
    while i < a.len()
        invariant
            a@.len() == b@.len(),
            i <= a@.len(),
            forall|j: int| 0 <= j < i ==> a@[j] == b@[j],
        decreases a@.len() - i,
    {
        if a[i] != b[i] {
            return false;
        }
        i = i + 1;
    }
    assert(a@ =~= b@);
    true
}

/// Bounds on the number of bombs in groups of tiles, keyed by the group.
#[derive(Debug)]
pub struct SubsetBounds {
    entries: Vec<(Vec<TilePos>, u8)>,
}

/// The map that a list of entries describes, later entries taking precedence.
pub open spec fn map_of(entries: Seq<(Vec<TilePos>, u8)>) -> Map<Seq<TilePos>, u8>
    decreases entries.len(),
{
    if entries.len() == 0 {
        Map::empty()
    } else {
        map_of(entries.drop_last()).insert(entries.last().0@, entries.last().1)
    }
}

impl View for SubsetBounds {
    type V = Map<Seq<TilePos>, u8>;

    closed spec fn view(&self) -> Map<Seq<TilePos>, u8> {
        map_of(self.entries@)
    }
}

impl SubsetBounds {
    pub fn new() -> (r: SubsetBounds)
        ensures
            r@ == Map::<Seq<TilePos>, u8>::empty(),
    {
        SubsetBounds { entries: Vec::new() }
    }

    /// The bound recorded for `key`, if any.
    pub fn get(&self, key: &Vec<TilePos>) -> (r: Option<u8>)
        ensures
            r == (if self@.contains_key(key@) {
                Some(self@[key@])
            } else {
                None
            }),
    {
        let mut i: usize = self.entries.len();
        while i > 0
            invariant
                i <= self.entries@.len(),
                forall|j: int| i <= j < self.entries@.len() ==> self.entries@[j].0@ != key@,
            decreases i,
        {
            if same_tiles(&self.entries[i - 1].0, key) {
                proof {
                    Self::lemma_map_of_suffix(self.entries@, i as int, key@);
                }
                return Some(self.entries[i - 1].1);
            }
            i = i - 1;
        }
        proof {
            Self::lemma_map_of_suffix(self.entries@, 0, key@);
        }
        None
    }

    proof fn lemma_map_of_suffix(e: Seq<(Vec<TilePos>, u8)>, i: int, k: Seq<TilePos>)
        requires
            0 <= i <= e.len(),
            forall|j: int| i <= j < e.len() ==> e[j].0@ != k,
        ensures
            i == 0 ==> !map_of(e).contains_key(k),
            i > 0 && e[i - 1].0@ == k ==> map_of(e).contains_key(k) && map_of(e)[k] == e[i - 1].1,
        decreases e.len(),
    {
        if e.len() > i {
            Self::lemma_map_of_suffix(e.drop_last(), i, k);
            assert forall|j: int| i <= j < e.drop_last().len() implies e.drop_last()[j].0@ != k by {
                assert(e.drop_last()[j] == e[j]);
            }
        } else if e.len() > 0 {
            if i == 0 {
            } else {
                assert(e.last() == e[i - 1]);
            }
        }
    }

    proof fn lemma_map_of_update(e: Seq<(Vec<TilePos>, u8)>, i: int, entry: (Vec<TilePos>, u8))
        requires
            0 <= i < e.len(),
            e[i].0@ == entry.0@,
            forall|j: int| i < j < e.len() ==> e[j].0@ != entry.0@,
        ensures
            map_of(e.update(i, entry)) == map_of(e).insert(entry.0@, entry.1),
        decreases e.len(),
    {
        let u = e.update(i, entry);
        if i == e.len() - 1 {
            assert(u.drop_last() == e.drop_last());
            assert(map_of(u) =~= map_of(e).insert(entry.0@, entry.1));
        } else {
            assert(u.drop_last() == e.drop_last().update(i, entry));
            Self::lemma_map_of_update(e.drop_last(), i, entry);
            assert(u.last() == e.last());
            assert(map_of(u) =~= map_of(e).insert(entry.0@, entry.1));
        }
    }

    /// Records `value` for `key`, replacing any earlier bound.
    pub fn insert(&mut self, key: Vec<TilePos>, value: u8)
        ensures
            final(self)@ == old(self)@.insert(key@, value),
    {
        let mut i: usize = self.entries.len();
        while i > 0
            invariant
                i <= self.entries@.len(),
                self.entries@ == old(self).entries@,
                forall|j: int| i <= j < self.entries@.len() ==> self.entries@[j].0@ != key@,
            decreases i,
        {
            if same_tiles(&self.entries[i - 1].0, &key) {
                let ghost before = self.entries@;
                let ghost entry = (key, value);
                proof {
                    Self::lemma_map_of_update(before, i - 1, entry);
                }
                self.entries.set(i - 1, (key, value));
                return;
            }
            i = i - 1;
        }
        let ghost before = self.entries@;
        self.entries.push((key, value));
        proof {
            assert(self.entries@.drop_last() == before);
        }
    }
}

/// How many tiles of `s` hold a bomb of `bombs`.
pub open spec fn cnt(s: Seq<TilePos>, bombs: Set<TilePos>) -> nat {
    s.to_set().intersect(bombs).len()
}

/// Every upper bound of `m` holds when the bombs are `bombs`.
pub open spec fn upper_sound(m: Map<Seq<TilePos>, u8>, bombs: Set<TilePos>) -> bool {
    forall|k: Seq<TilePos>| #[trigger] m.contains_key(k) ==> cnt(k, bombs) <= m[k]
}

/// Every lower bound of `m` holds when the bombs are `bombs`.
pub open spec fn lower_sound(m: Map<Seq<TilePos>, u8>, bombs: Set<TilePos>) -> bool {
    forall|k: Seq<TilePos>| #[trigger] m.contains_key(k) ==> m[k] <= cnt(k, bombs)
}

/// The count left to find at a numbered tile: its number less the flags
/// around it.
pub open spec fn needed(b: Board, p: TilePos) -> int {
    match b.state(p) {
        TileState::UncoveredSafe(n) => sat_sub(n as int, flagged_around(b, p) as int),
        _ => 0,
    }
}

/// A placement of bombs under the covered tiles that agrees with every number
/// on the board.
pub open spec fn consistent(b: Board, bombs: Set<TilePos>) -> bool {
    forall|p: TilePos|
        b.in_bounds(p) && (#[trigger] b.state(p)) is UncoveredSafe ==> cnt(covered_around(b, p), bombs)
            == needed(b, p)
}

pub proof fn lemma_cnt_bound(s: Seq<TilePos>, bombs: Set<TilePos>)
    ensures
        cnt(s, bombs) <= s.to_set().len(),
        s.to_set().len() <= s.len(),
        s.to_set().finite(),
{
    broadcast use vstd::seq_lib::seq_to_set_is_finite;

    vstd::set_lib::lemma_len_intersect(s.to_set(), bombs);
    s.lemma_cardinality_of_set();
}

/// Splitting a list of tiles into a part and the rest splits the count of
/// bombs.
pub proof fn lemma_cnt_split(tiles: Seq<TilePos>, sub: Seq<TilePos>, bombs: Set<TilePos>)
    requires
        forall|x: TilePos| sub.contains(x) ==> tiles.contains(x),
    ensures
        cnt(tiles, bombs) == cnt(sub, bombs) + cnt(minus(tiles, sub), bombs),
{
    broadcast use vstd::seq_lib::seq_to_set_is_finite;

    let rest = minus(tiles, sub);
    lemma_minus(tiles, sub);
    let a = sub.to_set().intersect(bombs);
    let c = rest.to_set().intersect(bombs);
    vstd::set_lib::lemma_len_intersect(sub.to_set(), bombs);
    vstd::set_lib::lemma_len_intersect(rest.to_set(), bombs);
    assert(a.disjoint(c));
    vstd::set_lib::lemma_set_disjoint_lens(a, c);
    assert(tiles.to_set().intersect(bombs) =~= a + c);
}

/// When at least as many of the tiles of `s` hold bombs as `s` has
/// members, all of them do; when none do, none of them is a bomb.
pub proof fn lemma_cnt_extremes(s: Seq<TilePos>, bombs: Set<TilePos>)
    ensures
        cnt(s, bombs) >= s.len() ==> forall|x: TilePos| s.contains(x) ==> bombs.contains(x),
        cnt(s, bombs) == 0 ==> forall|x: TilePos| s.contains(x) ==> !bombs.contains(x),
{
    broadcast use vstd::seq_lib::seq_to_set_is_finite;

    lemma_cnt_bound(s, bombs);
    let t = s.to_set();
    let i = t.intersect(bombs);
    vstd::set_lib::lemma_len_intersect(t, bombs);
    if cnt(s, bombs) >= s.len() {
        vstd::set_lib::lemma_subset_equality(i, t);
        assert forall|x: TilePos| s.contains(x) implies bombs.contains(x) by {
            assert(t.contains(x));
            assert(i.contains(x));
        }
    }
    if cnt(s, bombs) == 0 {
        vstd::set_lib::lemma_set_empty_equivalency_len(i);
        assert forall|x: TilePos| s.contains(x) implies !bombs.contains(x) by {
            assert(t.contains(x));
            if bombs.contains(x) {
                assert(i.contains(x));
            }
        }
    }
}

/// Every bound of `old` is still recorded in `new`, no looser.
pub open spec fn tighter_max(old: Map<Seq<TilePos>, u8>, new: Map<Seq<TilePos>, u8>) -> bool {
    forall|k: Seq<TilePos>| #[trigger] old.contains_key(k) ==> new.contains_key(k) && new[k] <= old[k]
}

/// Every bound of `old` is still recorded in `new`, no looser.
pub open spec fn tighter_min(old: Map<Seq<TilePos>, u8>, new: Map<Seq<TilePos>, u8>) -> bool {
    forall|k: Seq<TilePos>| #[trigger] old.contains_key(k) ==> new.contains_key(k) && new[k] >= old[k]
}

/// The upper bound `m` gives for `rest`: the recorded one, or its size.
pub open spec fn rest_max_bound(m: Map<Seq<TilePos>, u8>, rest: Seq<TilePos>) -> int {
    if m.contains_key(rest) {
        m[rest] as int
    } else {
        rest.len() as int
    }
}

/// The lower bound `m` gives for `rest`: the recorded one, or none.
pub open spec fn rest_min_bound(m: Map<Seq<TilePos>, u8>, rest: Seq<TilePos>) -> int {
    if m.contains_key(rest) {
        m[rest] as int
    } else {
        0
    }
}

/// Every group recorded in `new` but not in `old` has a bound no larger than
/// its size.
pub open spec fn new_keys_at_most_size(old: Map<Seq<TilePos>, u8>, new: Map<Seq<TilePos>, u8>) -> bool {
    forall|k: Seq<TilePos>| #[trigger] new.contains_key(k) && !old.contains_key(k) ==> new[k] <= k.len()
}

/// Groups of at least `n` tiles are recorded in `new` exactly as in `old`.
pub open spec fn long_keys_kept(old: Map<Seq<TilePos>, u8>, new: Map<Seq<TilePos>, u8>, n: int) -> bool {
    forall|k: Seq<TilePos>|
        k.len() >= n ==> (#[trigger] new.contains_key(k) == old.contains_key(k)) && (old.contains_key(
            k,
        ) ==> new[k] == old[k])
}

/// Every group recorded in `new` but not in `old` has more than two tiles,
/// all of them from `tiles`, and no repeats where `tiles` has none.
pub open spec fn new_keys_within(
    old: Map<Seq<TilePos>, u8>,
    new: Map<Seq<TilePos>, u8>,
    tiles: Seq<TilePos>,
) -> bool {
    forall|k: Seq<TilePos>|
        #[trigger] new.contains_key(k) && !old.contains_key(k) ==> k.len() > 2 && (forall|x: TilePos|
            k.contains(x) ==> tiles.contains(x)) && (tiles.no_duplicates() ==> k.no_duplicates())
}

/// The best upper bound on the bombs among `tiles` that the recorded bounds
/// give, combining the bound of any recorded part with that of the rest; the
/// result is recorded too.
pub fn max_in_subset(tiles: &Vec<TilePos>, max_bombs: &mut SubsetBounds) -> (r: u8)
    requires
        tiles@.len() <= 255,
    ensures
        forall|bombs: Set<TilePos>|
            #[trigger] upper_sound(old(max_bombs)@, bombs) ==> upper_sound(final(max_bombs)@, bombs)
                && cnt(tiles@, bombs) <= r,
        old(max_bombs)@.contains_key(tiles@) ==> r <= old(max_bombs)@[tiles@],
        !old(max_bombs)@.contains_key(tiles@) ==> r <= tiles@.len(),
        tighter_max(old(max_bombs)@, final(max_bombs)@),
        new_keys_within(old(max_bombs)@, final(max_bombs)@, tiles@),
        new_keys_at_most_size(old(max_bombs)@, final(max_bombs)@),
        forall|j: int|
            0 <= j < subsets_upto(tiles@, tiles@.len() - 1).len() && old(max_bombs)@.contains_key(
                #[trigger] subsets_upto(tiles@, tiles@.len() - 1)[j],
            ) ==> r <= old(max_bombs)@[subsets_upto(tiles@, tiles@.len() - 1)[j]] + rest_max_bound(
                old(max_bombs)@,
                minus(tiles@, subsets_upto(tiles@, tiles@.len() - 1)[j]),
            ),
        long_keys_kept(old(max_bombs)@, final(max_bombs)@, tiles@.len() as int + 1),
        tiles@.len() > 2 ==> final(max_bombs)@.contains_key(tiles@) && final(max_bombs)@[tiles@]
            == r,
        tiles@.len() <= 2 ==> final(max_bombs)@ == old(max_bombs)@ && r == (if old(max_bombs)@.contains_key(tiles@) {
            old(max_bombs)@[tiles@] as int
        } else {
            tiles@.len() as int
        }),
    decreases tiles@.len(),
{
    let ghost start = max_bombs@;
    let mut smallest_max: u8 = match max_bombs.get(tiles) {
        Some(max) => max,
        None => tiles.len() as u8,
    };
    proof {
        assert forall|bombs: Set<TilePos>| #[trigger] upper_sound(start, bombs) implies cnt(
            tiles@,
            bombs,
        ) <= smallest_max by {
            lemma_cnt_bound(tiles@, bombs);
        }
    }
    let ghost first = smallest_max;
    if tiles.len() <= 2 {
        return smallest_max;
    }
    let max_size = tiles.len() - 1;
    let subs = subsets(tiles.as_slice(), max_size);
    proof {
        lemma_subsets_upto(tiles@, max_size as int);
    }
    let mut i: usize = 0;
    while i < subs.len()
        invariant
            i <= subs@.len(),
            3 <= tiles@.len() <= 255,
            max_size == tiles@.len() - 1,
            subs@.map_values(|v: Vec<TilePos>| v@) == subsets_upto(tiles@, max_size as int),
            forall|j: int|
                0 <= j < subsets_upto(tiles@, max_size as int).len() ==> {
                    &&& 2 <= (#[trigger] subsets_upto(tiles@, max_size as int)[j]).len() <= max_size
                    &&& forall|x: TilePos|
                        subsets_upto(tiles@, max_size as int)[j].contains(x) ==> tiles@.contains(x)
                },
            smallest_max <= first,
            tighter_max(start, max_bombs@),
            new_keys_within(start, max_bombs@, tiles@),
            new_keys_at_most_size(start, max_bombs@),
            long_keys_kept(start, max_bombs@, tiles@.len() as int),
            start.contains_key(tiles@) ==> first == start[tiles@],
            !start.contains_key(tiles@) ==> first == tiles@.len(),
            forall|j: int|
                0 <= j < i && start.contains_key(
                    #[trigger] subsets_upto(tiles@, max_size as int)[j],
                ) ==> smallest_max <= start[subsets_upto(tiles@, max_size as int)[j]] + rest_max_bound(
                    start,
                    minus(tiles@, subsets_upto(tiles@, max_size as int)[j]),
                ),
            forall|bombs: Set<TilePos>|
                #[trigger] upper_sound(start, bombs) ==> upper_sound(max_bombs@, bombs) && cnt(
                    tiles@,
                    bombs,
                ) <= smallest_max,
        decreases subs@.len() - i,
    {
        let subset = &subs[i];
        proof {
            assert(subset@ == subsets_upto(tiles@, max_size as int)[i as int]);
        }
        let ghost at_lookup = max_bombs@;
        if let Some(sub_max) = max_bombs.get(subset) {
            let rest = set_difference(tiles, subset);
            proof {
                lemma_minus(tiles@, subset@);
                assert(subset@.contains(subset@[0]));
                assert(tiles@.contains(subset@[0]));
            }
            let ghost before_rest = max_bombs@;
            let rest_max = max_in_subset(&rest, max_bombs);
            proof {
                assert forall|k: Seq<TilePos>|
                    #[trigger] max_bombs@.contains_key(k) && !start.contains_key(k) implies k.len()
                    > 2 && (forall|x: TilePos| k.contains(x) ==> tiles@.contains(x)) && (
                tiles@.no_duplicates() ==> k.no_duplicates()) by {
                    if !before_rest.contains_key(k) {
                        assert forall|x: TilePos| k.contains(x) implies tiles@.contains(x) by {
                            assert(rest@.contains(x));
                        }
                    }
                }
            }
            let tiles_max: u32 = sub_max as u32 + rest_max as u32;
            proof {
                if start.contains_key(subset@) {
                    assert(sub_max <= start[subset@]);
                }
                if start.contains_key(rest@) {
                    assert(before_rest.contains_key(rest@));
                } else if before_rest.contains_key(rest@) {
                    assert(before_rest[rest@] <= rest@.len());
                }
                assert(rest_max <= rest_max_bound(start, rest@));
            }
            if tiles_max < smallest_max as u32 {
                smallest_max = tiles_max as u8;
            }
            proof {
                assert forall|bombs: Set<TilePos>| #[trigger] upper_sound(start, bombs) implies upper_sound(
                    max_bombs@,
                    bombs,
                ) && cnt(tiles@, bombs) <= smallest_max by {
                    assert(upper_sound(at_lookup, bombs));
                    assert(at_lookup.contains_key(subset@));
                    lemma_cnt_split(tiles@, subset@, bombs);
                }
            }
        }
        i = i + 1;
    }
    let ghost before_insert = max_bombs@;
    match max_bombs.get(tiles) {
        Some(max) => {
            if smallest_max < max {
                max_bombs.insert(tiles.clone(), smallest_max);
            }
        },
        None => {
            max_bombs.insert(tiles.clone(), smallest_max);
        },
    }
    proof {
        assert forall|bombs: Set<TilePos>| #[trigger] upper_sound(start, bombs) implies upper_sound(
            max_bombs@,
            bombs,
        ) && cnt(tiles@, bombs) <= smallest_max by {
            assert(upper_sound(before_insert, bombs));
        }
    }
    smallest_max
}

/// The best lower bound on the bombs among `tiles` that the recorded bounds
/// give, combining the bound of any recorded part with that of the rest; the
/// result is recorded too.
pub fn min_in_subset(tiles: &Vec<TilePos>, min_bombs: &mut SubsetBounds) -> (r: u8)
    requires
        tiles@.len() <= 255,
    ensures
        forall|bombs: Set<TilePos>|
            #[trigger] lower_sound(old(min_bombs)@, bombs) ==> lower_sound(final(min_bombs)@, bombs)
                && r <= cnt(tiles@, bombs),
        old(min_bombs)@.contains_key(tiles@) ==> old(min_bombs)@[tiles@] <= r,
        tighter_min(old(min_bombs)@, final(min_bombs)@),
        new_keys_within(old(min_bombs)@, final(min_bombs)@, tiles@),
        forall|j: int|
            0 <= j < subsets_upto(tiles@, tiles@.len() - 1).len() && old(min_bombs)@.contains_key(
                #[trigger] subsets_upto(tiles@, tiles@.len() - 1)[j],
            ) ==> r >= 255 || r >= old(min_bombs)@[subsets_upto(tiles@, tiles@.len() - 1)[j]]
                + rest_min_bound(old(min_bombs)@, minus(tiles@, subsets_upto(tiles@, tiles@.len() - 1)[j])),
        long_keys_kept(old(min_bombs)@, final(min_bombs)@, tiles@.len() as int + 1),
        tiles@.len() > 2 ==> final(min_bombs)@.contains_key(tiles@) && final(min_bombs)@[tiles@]
            == r,
        tiles@.len() <= 2 ==> final(min_bombs)@ == old(min_bombs)@ && r == (if old(min_bombs)@.contains_key(tiles@) {
            old(min_bombs)@[tiles@] as int
        } else {
            0
        }),
    decreases tiles@.len(),
{
    let ghost start = min_bombs@;
    let mut biggest_min: u8 = match min_bombs.get(tiles) {
        Some(min) => min,
        None => 0,
    };
    let ghost first = biggest_min;
    if tiles.len() <= 2 {
        return biggest_min;
    }
    let max_size = tiles.len() - 1;
    let subs = subsets(tiles.as_slice(), max_size);
    proof {
        lemma_subsets_upto(tiles@, max_size as int);
    }
    let mut i: usize = 0;
    while i < subs.len()
        invariant
            i <= subs@.len(),
            3 <= tiles@.len() <= 255,
            max_size == tiles@.len() - 1,
            subs@.map_values(|v: Vec<TilePos>| v@) == subsets_upto(tiles@, max_size as int),
            forall|j: int|
                0 <= j < subsets_upto(tiles@, max_size as int).len() ==> {
                    &&& 2 <= (#[trigger] subsets_upto(tiles@, max_size as int)[j]).len() <= max_size
                    &&& forall|x: TilePos|
                        subsets_upto(tiles@, max_size as int)[j].contains(x) ==> tiles@.contains(x)
                },
            first <= biggest_min,
            tighter_min(start, min_bombs@),
            new_keys_within(start, min_bombs@, tiles@),
            long_keys_kept(start, min_bombs@, tiles@.len() as int),
            start.contains_key(tiles@) ==> first == start[tiles@],
            forall|j: int|
                0 <= j < i && start.contains_key(
                    #[trigger] subsets_upto(tiles@, max_size as int)[j],
                ) ==> biggest_min >= 255 || biggest_min >= start[subsets_upto(tiles@, max_size as int)[j]]
                    + rest_min_bound(start, minus(tiles@, subsets_upto(tiles@, max_size as int)[j])),
            forall|bombs: Set<TilePos>|
                #[trigger] lower_sound(start, bombs) ==> lower_sound(min_bombs@, bombs)
                    && biggest_min <= cnt(tiles@, bombs),
        decreases subs@.len() - i,
    {
        let subset = &subs[i];
        proof {
            assert(subset@ == subsets_upto(tiles@, max_size as int)[i as int]);
        }
        let ghost at_lookup = min_bombs@;
        if let Some(sub_min) = min_bombs.get(subset) {
            let rest = set_difference(tiles, subset);
            proof {
                lemma_minus(tiles@, subset@);
                assert(subset@.contains(subset@[0]));
                assert(tiles@.contains(subset@[0]));
            }
            let ghost before_rest = min_bombs@;
            let rest_min = min_in_subset(&rest, min_bombs);
            proof {
                assert forall|k: Seq<TilePos>|
                    #[trigger] min_bombs@.contains_key(k) && !start.contains_key(k) implies k.len()
                    > 2 && (forall|x: TilePos| k.contains(x) ==> tiles@.contains(x)) && (
                tiles@.no_duplicates() ==> k.no_duplicates()) by {
                    if !before_rest.contains_key(k) {
                        assert forall|x: TilePos| k.contains(x) implies tiles@.contains(x) by {
                            assert(rest@.contains(x));
                        }
                    }
                }
            }
            let tiles_min: u32 = sub_min as u32 + rest_min as u32;
            proof {
                if start.contains_key(subset@) {
                    assert(sub_min >= start[subset@]);
                }
                if start.contains_key(rest@) {
                    assert(before_rest.contains_key(rest@));
                }
                assert(rest_min >= rest_min_bound(start, rest@));
            }
            if tiles_min > biggest_min as u32 {
                biggest_min = if tiles_min > 255 {
                    255
                } else {
                    tiles_min as u8
                };
            }
            proof {
                assert forall|bombs: Set<TilePos>| #[trigger] lower_sound(start, bombs) implies lower_sound(
                    min_bombs@,
                    bombs,
                ) && biggest_min <= cnt(tiles@, bombs) by {
                    assert(lower_sound(at_lookup, bombs));
                    assert(at_lookup.contains_key(subset@));
                    lemma_cnt_split(tiles@, subset@, bombs);
                }
            }
        }
        i = i + 1;
    }
    let ghost before_insert = min_bombs@;
    match min_bombs.get(tiles) {
        Some(min) => {
            if biggest_min > min {
                min_bombs.insert(tiles.clone(), biggest_min);
            }
        },
        None => {
            min_bombs.insert(tiles.clone(), biggest_min);
        },
    }
    proof {
        assert forall|bombs: Set<TilePos>| #[trigger] lower_sound(start, bombs) implies lower_sound(
            min_bombs@,
            bombs,
        ) && biggest_min <= cnt(tiles@, bombs) by {
            assert(lower_sound(before_insert, bombs));
        }
    }
    biggest_min
}

pub open spec fn both_sound(
    min_bombs: Map<Seq<TilePos>, u8>,
    max_bombs: Map<Seq<TilePos>, u8>,
    bombs: Set<TilePos>,
) -> bool {
    lower_sound(min_bombs, bombs) && upper_sound(max_bombs, bombs)
}

/// Every recorded group has at least two tiles, all on the board and
/// covered, none of them twice.
pub open spec fn keys_ok(b: Board, m: Map<Seq<TilePos>, u8>) -> bool {
    forall|k: Seq<TilePos>|
        #[trigger] m.contains_key(k) ==> k.len() >= 2 && k.no_duplicates() && forall|x: TilePos|
            k.contains(x) ==> b.in_bounds(x) && b.state(x) == TileState::Covered
}

/// The groups of two or more covered neighbours of `p`.
pub open spec fn groups_of(b: Board, p: TilePos) -> Seq<Seq<TilePos>> {
    subsets_upto(covered_around(b, p), covered_around(b, p).len() as int)
}

/// Every group around `p` larger than the count left at `p` is recorded as
/// holding at most that count.
pub open spec fn max_seeded(b: Board, p: TilePos, m: Map<Seq<TilePos>, u8>) -> bool {
    forall|j: int|
        0 <= j < groups_of(b, p).len() && (#[trigger] groups_of(b, p)[j]).len() > needed(b, p)
            ==> m.contains_key(groups_of(b, p)[j]) && m[groups_of(b, p)[j]] <= needed(b, p)
}

/// Where bombs are left around `p`, all its covered neighbours together are
/// recorded as holding at least that many.
pub open spec fn min_seeded(b: Board, p: TilePos, m: Map<Seq<TilePos>, u8>) -> bool {
    needed(b, p) > 0 && covered_around(b, p).len() >= 2 ==> m.contains_key(covered_around(b, p))
        && m[covered_around(b, p)] >= needed(b, p)
}

/// All the covered neighbours of `p` together are recorded as holding at most
/// the count left at `p`.
pub open spec fn max_whole(b: Board, p: TilePos, m: Map<Seq<TilePos>, u8>) -> bool {
    covered_around(b, p).len() >= 2 ==> m.contains_key(covered_around(b, p))
        && m[covered_around(b, p)] <= needed(b, p)
}

/// Every group of all but one of the covered neighbours of `p` is recorded
/// as holding at least one bomb fewer than the count left at `p`, where that
/// count is at least two.
pub open spec fn min_one_out(b: Board, p: TilePos, m: Map<Seq<TilePos>, u8>) -> bool {
    forall|j: int|
        0 <= j < groups_of(b, p).len() && minus(covered_around(b, p), #[trigger] groups_of(b, p)[j]).len()
            == 1 && needed(b, p) >= 2 ==> m.contains_key(groups_of(b, p)[j]) && m[groups_of(
            b,
            p,
        )[j]] >= needed(b, p) - 1
}

/// The bounds that the numbered tile `p` gives by itself are recorded.
pub open spec fn seeded(
    b: Board,
    p: TilePos,
    min_bombs: Map<Seq<TilePos>, u8>,
    max_bombs: Map<Seq<TilePos>, u8>,
) -> bool {
    b.in_bounds(p) && b.state(p) is UncoveredSafe ==> max_seeded(b, p, max_bombs) && min_seeded(
        b,
        p,
        min_bombs,
    ) && max_whole(b, p, max_bombs) && min_one_out(b, p, min_bombs)
}

proof fn lemma_seeded_persists(
    b: Board,
    p: TilePos,
    min1: Map<Seq<TilePos>, u8>,
    max1: Map<Seq<TilePos>, u8>,
    min2: Map<Seq<TilePos>, u8>,
    max2: Map<Seq<TilePos>, u8>,
)
    requires
        seeded(b, p, min1, max1),
        tighter_min(min1, min2),
        tighter_max(max1, max2),
    ensures
        seeded(b, p, min2, max2),
{
    if b.in_bounds(p) && b.state(p) is UncoveredSafe {
        assert forall|j: int|
            0 <= j < groups_of(b, p).len() && (#[trigger] groups_of(b, p)[j]).len() > needed(b, p)
                implies max2.contains_key(groups_of(b, p)[j]) && max2[groups_of(b, p)[j]]
            <= needed(b, p) by {
            assert(max1.contains_key(groups_of(b, p)[j]));
        }
        if needed(b, p) > 0 && covered_around(b, p).len() >= 2 {
            assert(min1.contains_key(covered_around(b, p)));
        }
        if covered_around(b, p).len() >= 2 {
            assert(max1.contains_key(covered_around(b, p)));
        }
        assert forall|j: int|
            0 <= j < groups_of(b, p).len() && minus(covered_around(b, p), #[trigger] groups_of(b, p)[j]).len()
                == 1 && needed(b, p) >= 2 implies min2.contains_key(groups_of(b, p)[j]) && min2[groups_of(
            b,
            p,
        )[j]] >= needed(b, p) - 1 by {
            assert(min1.contains_key(groups_of(b, p)[j]));
        }
    }
}

proof fn lemma_combos_too_big(s: Seq<TilePos>, k: int)
    requires
        k > s.len(),
    ensures
        combos(s, k) == Seq::<Seq<TilePos>>::empty(),
    decreases s.len(),
{
    if s.len() > 0 {
        lemma_combos_too_big(s.drop_first(), k);
        lemma_combos_too_big(s.drop_first(), k - 1);
        assert(combos(s.drop_first(), k - 1).map_values(|c: Seq<TilePos>| seq![s[0]] + c)
            =~= Seq::<Seq<TilePos>>::empty());
        assert(combos(s, k) =~= Seq::<Seq<TilePos>>::empty());
    }
}

/// The one combination of all the tiles is the list itself.
proof fn lemma_combos_full(s: Seq<TilePos>)
    ensures
        combos(s, s.len() as int) == seq![s],
    decreases s.len(),
{
    if s.len() == 0 {
        assert(s =~= seq![]);
    } else {
        let rest = s.drop_first();
        lemma_combos_full(rest);
        lemma_combos_too_big(rest, s.len() as int);
        assert(seq![s[0]] + rest =~= s);
        assert(combos(rest, s.len() - 1).map_values(|c: Seq<TilePos>| seq![s[0]] + c) =~= seq![s]);
        assert(combos(s, s.len() as int) =~= seq![s]);
    }
}

/// Tightens the recorded bounds from every numbered tile once: a group of its
/// covered neighbours larger than the count left holds at most that count, and
/// the bounds on the rest of its neighbours bound the group from the other
/// side. Recorded bounds only tighten, and every group is one of covered
/// tiles.
fn update_subset_bounds(board: &Board, min_bombs: &mut SubsetBounds, max_bombs: &mut SubsetBounds)
    requires
        board.wf(),
        keys_ok(*board, old(min_bombs)@),
        keys_ok(*board, old(max_bombs)@),
    ensures
        forall|bombs: Set<TilePos>|
            consistent(*board, bombs) && #[trigger] both_sound(old(min_bombs)@, old(max_bombs)@, bombs)
                ==> both_sound(final(min_bombs)@, final(max_bombs)@, bombs),
        tighter_min(old(min_bombs)@, final(min_bombs)@),
        tighter_max(old(max_bombs)@, final(max_bombs)@),
        keys_ok(*board, final(min_bombs)@),
        keys_ok(*board, final(max_bombs)@),
        forall|p: TilePos| #[trigger] seeded(*board, p, final(min_bombs)@, final(max_bombs)@),
{
    let ghost start_min = min_bombs@;
    let ghost start_max = max_bombs@;
    let mut col: usize = 0;
    while col < board.width()
        invariant
            board.wf(),
            col <= board.w(),
            forall|bombs: Set<TilePos>|
                consistent(*board, bombs) && #[trigger] both_sound(start_min, start_max, bombs)
                    ==> both_sound(min_bombs@, max_bombs@, bombs),
            tighter_min(start_min, min_bombs@),
            tighter_max(start_max, max_bombs@),
            keys_ok(*board, min_bombs@),
            keys_ok(*board, max_bombs@),
            forall|p: TilePos|
                p.col < col ==> #[trigger] seeded(*board, p, min_bombs@, max_bombs@),
        decreases board.w() - col,
    {
        let mut row: usize = 0;
        while row < board.height()
            invariant
                board.wf(),
                col < board.w(),
                row <= board.h(),
                forall|bombs: Set<TilePos>|
                    consistent(*board, bombs) && #[trigger] both_sound(start_min, start_max, bombs)
                        ==> both_sound(min_bombs@, max_bombs@, bombs),
                tighter_min(start_min, min_bombs@),
                tighter_max(start_max, max_bombs@),
                keys_ok(*board, min_bombs@),
                keys_ok(*board, max_bombs@),
                forall|p: TilePos|
                    crate::agent::visited(p, col as int, row as int) ==> #[trigger] seeded(
                        *board,
                        p,
                        min_bombs@,
                        max_bombs@,
                    ),
            decreases board.h() - row,
        {
            let pos = TilePos { col, row };
            let ghost tile_min = min_bombs@;
            let ghost tile_max = max_bombs@;
            if let TileState::UncoveredSafe(n) = board.tile_state(pos) {
                let n = n.saturating_sub(num_bombs_around(board, pos));
                let covered = covered_neighbours(board, pos);
                let num_covered = covered.len();
                let subs = subsets(covered.as_slice(), num_covered);
                proof {
                    lemma_subsets_upto(covered@, num_covered as int);
                    crate::agent::lemma_covered_around(*board, pos);
                    assert(n == needed(*board, pos));
                }
                let mut i: usize = 0;
                while i < subs.len()
                    invariant
                        board.wf(),
                        board.in_bounds(pos),
                        board.state(pos) is UncoveredSafe,
                        n == needed(*board, pos),
                        covered@ == covered_around(*board, pos),
                        covered@.no_duplicates(),
                        forall|q: TilePos|
                            covered@.contains(q) ==> board.in_bounds(q) && board.state(q)
                                == TileState::Covered,
                        covered@.len() <= 8,
                        num_covered == covered@.len(),
                        i <= subs@.len(),
                        subs@.map_values(|v: Vec<TilePos>| v@) == subsets_upto(
                            covered@,
                            num_covered as int,
                        ),
                        forall|j: int|
                            0 <= j < subsets_upto(covered@, num_covered as int).len() ==> {
                                &&& 2 <= (#[trigger] subsets_upto(covered@, num_covered as int)[j]).len()
                                    <= num_covered
                                &&& forall|x: TilePos|
                                    subsets_upto(covered@, num_covered as int)[j].contains(x)
                                        ==> covered@.contains(x)
                                &&& covered@.no_duplicates() ==> subsets_upto(
                                    covered@,
                                    num_covered as int,
                                )[j].no_duplicates()
                            },
                        forall|bombs: Set<TilePos>|
                            consistent(*board, bombs) && #[trigger] both_sound(
                                start_min,
                                start_max,
                                bombs,
                            ) ==> both_sound(min_bombs@, max_bombs@, bombs),
                        tighter_min(start_min, min_bombs@),
                        tighter_max(start_max, max_bombs@),
                        tighter_min(tile_min, min_bombs@),
                        tighter_max(tile_max, max_bombs@),
                        keys_ok(*board, min_bombs@),
                        keys_ok(*board, max_bombs@),
                        forall|j: int|
                            0 <= j < i && (#[trigger] subsets_upto(covered@, num_covered as int)[j]).len()
                                > n ==> max_bombs@.contains_key(
                                subsets_upto(covered@, num_covered as int)[j],
                            ) && max_bombs@[subsets_upto(covered@, num_covered as int)[j]] <= n,
                        forall|j: int|
                            0 <= j < i && #[trigger] subsets_upto(covered@, num_covered as int)[j]
                                == covered@ && n > 0 ==> min_bombs@.contains_key(covered@)
                                && min_bombs@[covered@] >= n,
                        forall|j: int|
                            0 <= j < i && #[trigger] subsets_upto(covered@, num_covered as int)[j]
                                == covered@ ==> max_bombs@.contains_key(covered@)
                                && max_bombs@[covered@] <= n,
                        forall|j: int|
                            0 <= j < i && minus(
                                covered@,
                                #[trigger] subsets_upto(covered@, num_covered as int)[j],
                            ).len() == 1 && n >= 2 ==> min_bombs@.contains_key(
                                subsets_upto(covered@, num_covered as int)[j],
                            ) && min_bombs@[subsets_upto(covered@, num_covered as int)[j]] >= n - 1,
                    decreases subs@.len() - i,
                {
                    let subset = &subs[i];
                    let ghost it_min = min_bombs@;
                    let ghost it_max = max_bombs@;
                    proof {
                        assert(subset@ == subsets_upto(covered@, num_covered as int)[i as int]);
                        assert forall|bombs: Set<TilePos>| consistent(*board, bombs) implies cnt(
                            subset@,
                            bombs,
                        ) + cnt(minus(covered@, subset@), bombs) == n by {
                            lemma_cnt_split(covered@, subset@, bombs);
                            assert(board.state(pos) is UncoveredSafe);
                        }
                    }
                    let ghost m0_min = min_bombs@;
                    let ghost m0_max = max_bombs@;
                    // at most n bombs in any group around the tile
                    if subset.len() > n as usize {
                        match max_bombs.get(subset) {
                            Some(max) => {
                                if n < max {
                                    max_bombs.insert(subset.clone(), n);
                                }
                            },
                            None => {
                                max_bombs.insert(subset.clone(), n);
                            },
                        }
                    }
                    let ghost m1_max = max_bombs@;
                    proof {
                        assert forall|bombs: Set<TilePos>|
                            consistent(*board, bombs) && #[trigger] both_sound(
                                start_min,
                                start_max,
                                bombs,
                            ) implies both_sound(min_bombs@, max_bombs@, bombs) by {
                            assert(both_sound(m0_min, m0_max, bombs));
                        }
                        assert(tighter_max(m0_max, m1_max));
                        assert(keys_ok(*board, m1_max));
                    }
                    // leaving out tiles with at most k bombs leaves at least n - k
                    let rest = set_difference(&covered, subset);
                    proof {
                        lemma_minus(covered@, subset@);
                        if subset@ == covered@ {
                            if rest@.len() > 0 {
                                assert(rest@.contains(rest@[0]));
                            }
                        }
                    }
                    let max_omitted = max_in_subset(&rest, max_bombs);
                    let ghost m2_min = min_bombs@;
                    let ghost m2_max = max_bombs@;
                    proof {
                        assert(keys_ok(*board, m2_max)) by {
                            assert forall|k: Seq<TilePos>| #[trigger] m2_max.contains_key(k) implies k.len()
                                >= 2 && k.no_duplicates() && forall|x: TilePos|
                                k.contains(x) ==> board.in_bounds(x) && board.state(x)
                                    == TileState::Covered by {
                                if !m1_max.contains_key(k) {
                                    assert forall|x: TilePos| k.contains(x) implies board.in_bounds(x)
                                        && board.state(x) == TileState::Covered by {
                                        assert(rest@.contains(x));
                                    }
                                }
                            }
                        }
                        if rest@.len() == 1 {
                            assert(!m1_max.contains_key(rest@));
                            assert(max_omitted == 1);
                        }
                        if rest@.len() == 1 {
                            assert(!m1_max.contains_key(rest@));
                            assert(max_omitted == 1);
                        }
                        if subset@ == covered@ {
                            if rest@.len() > 0 {
                                assert(rest@.contains(rest@[0]));
                                assert(covered@.contains(rest@[0]) && !subset@.contains(rest@[0]));
                            }
                            assert(rest@.len() == 0);
                            assert(!m1_max.contains_key(rest@));
                            assert(max_omitted == 0);
                        }
                    }
                    if n > max_omitted {
                        match min_bombs.get(subset) {
                            Some(min) => {
                                if n - max_omitted > min {
                                    min_bombs.insert(subset.clone(), n - max_omitted);
                                }
                            },
                            None => {
                                min_bombs.insert(subset.clone(), n - max_omitted);
                            },
                        }
                    }
                    let ghost m25_min = min_bombs@;
                    proof {
                        assert forall|bombs: Set<TilePos>|
                            consistent(*board, bombs) && #[trigger] both_sound(
                                start_min,
                                start_max,
                                bombs,
                            ) implies both_sound(min_bombs@, max_bombs@, bombs) by {
                            assert(both_sound(m2_min, m1_max, bombs));
                            assert(upper_sound(m1_max, bombs));
                        }
                        assert(tighter_min(m2_min, m25_min));
                        assert(keys_ok(*board, m25_min));
                    }
                    // leaving out tiles with at least k bombs leaves at most n - k
                    let min_omitted = min_in_subset(&rest, min_bombs);
                    let ghost m3_min = min_bombs@;
                    let ghost m3_max = max_bombs@;
                    proof {
                        if subset@ == covered@ {
                            assert(!m25_min.contains_key(rest@));
                            assert(min_omitted == 0);
                        }
                    }
                    proof {
                        assert(keys_ok(*board, m3_min)) by {
                            assert forall|k: Seq<TilePos>| #[trigger] m3_min.contains_key(k) implies k.len()
                                >= 2 && k.no_duplicates() && forall|x: TilePos|
                                k.contains(x) ==> board.in_bounds(x) && board.state(x)
                                    == TileState::Covered by {
                                if !m25_min.contains_key(k) {
                                    assert forall|x: TilePos| k.contains(x) implies board.in_bounds(x)
                                        && board.state(x) == TileState::Covered by {
                                        assert(rest@.contains(x));
                                    }
                                }
                            }
                        }
                    }
                    if n > min_omitted {
                        match max_bombs.get(subset) {
                            Some(max) => {
                                if n - min_omitted < max {
                                    max_bombs.insert(subset.clone(), n - min_omitted);
                                }
                            },
                            None => {
                                max_bombs.insert(subset.clone(), n - min_omitted);
                            },
                        }
                    }
                    proof {
                        assert forall|bombs: Set<TilePos>|
                            consistent(*board, bombs) && #[trigger] both_sound(
                                start_min,
                                start_max,
                                bombs,
                            ) implies both_sound(min_bombs@, max_bombs@, bombs) by {
                            assert(both_sound(m2_min, m2_max, bombs));
                            assert(lower_sound(m2_min, bombs));
                            assert(both_sound(m3_min, m3_max, bombs));
                        }
                        assert(tighter_max(m3_max, max_bombs@));
                        assert(tighter_max(it_max, max_bombs@));
                        assert(tighter_min(it_min, min_bombs@));
                        assert forall|j: int|
                            0 <= j < i + 1 && (#[trigger] subsets_upto(
                                covered@,
                                num_covered as int,
                            )[j]).len() > n implies max_bombs@.contains_key(
                            subsets_upto(covered@, num_covered as int)[j],
                        ) && max_bombs@[subsets_upto(covered@, num_covered as int)[j]] <= n by {
                            if j < i {
                                assert(it_max.contains_key(
                                    subsets_upto(covered@, num_covered as int)[j],
                                ));
                            } else {
                                assert(m1_max.contains_key(subset@));
                            }
                        }
                        assert forall|j: int|
                            0 <= j < i + 1 && #[trigger] subsets_upto(
                                covered@,
                                num_covered as int,
                            )[j] == covered@ && n > 0 implies min_bombs@.contains_key(covered@)
                            && min_bombs@[covered@] >= n by {
                            if j < i {
                                assert(it_min.contains_key(covered@));
                            } else {
                                assert(m25_min.contains_key(covered@));
                            }
                        }
                        assert forall|j: int|
                            0 <= j < i + 1 && minus(
                                covered@,
                                #[trigger] subsets_upto(covered@, num_covered as int)[j],
                            ).len() == 1 && n >= 2 implies min_bombs@.contains_key(
                            subsets_upto(covered@, num_covered as int)[j],
                        ) && min_bombs@[subsets_upto(covered@, num_covered as int)[j]] >= n - 1 by {
                            if j < i {
                                assert(it_min.contains_key(
                                    subsets_upto(covered@, num_covered as int)[j],
                                ));
                            } else {
                                assert(m25_min.contains_key(subset@));
                            }
                        }
                        assert forall|j: int|
                            0 <= j < i + 1 && #[trigger] subsets_upto(
                                covered@,
                                num_covered as int,
                            )[j] == covered@ implies max_bombs@.contains_key(covered@)
                            && max_bombs@[covered@] <= n by {
                            if j < i {
                                assert(it_max.contains_key(covered@));
                            } else if n == 0 {
                                assert(m1_max.contains_key(covered@));
                            } else {
                                assert(m3_max.contains_key(covered@) ==> m3_max[covered@] >= 0);
                            }
                        }
                    }
                    i = i + 1;
                }
                proof {
                    if num_covered >= 2 {
                        lemma_combos_full(covered@);
                        let g = subsets_upto(covered@, num_covered as int);
                        assert(g == subsets_upto(covered@, num_covered - 1) + seq![covered@]);
                        assert(g[g.len() - 1] == covered@);
                    }
                    assert(max_seeded(*board, pos, max_bombs@));
                    assert(min_seeded(*board, pos, min_bombs@));
                    assert(max_whole(*board, pos, max_bombs@));
                    assert(min_one_out(*board, pos, min_bombs@));
                    assert(seeded(*board, pos, min_bombs@, max_bombs@));
                }
            }
            proof {
                assert forall|p: TilePos|
                    crate::agent::visited(p, col as int, row + 1) implies #[trigger] seeded(
                    *board,
                    p,
                    min_bombs@,
                    max_bombs@,
                ) by {
                    if p != pos {
                        assert(crate::agent::visited(p, col as int, row as int));
                        assert(seeded(*board, p, tile_min, tile_max));
                        lemma_seeded_persists(*board, p, tile_min, tile_max, min_bombs@, max_bombs@);
                    }
                }
            }
            row = row + 1;
        }
        proof {
            assert forall|p: TilePos| p.col < col + 1 implies #[trigger] seeded(
                *board,
                p,
                min_bombs@,
                max_bombs@,
            ) by {
                if board.in_bounds(p) {
                    assert(crate::agent::visited(p, col as int, board.h() as int));
                }
            }
        }
        col = col + 1;
    }
    proof {
        assert forall|p: TilePos| #[trigger] seeded(*board, p, min_bombs@, max_bombs@) by {
            if !(p.col < col) {
                assert(!board.in_bounds(p));
            }
        }
    }
}

/// Bounds on the bombs in groups of covered tiles, lower bounds first, that
/// hold for every placement of bombs that agrees with the board, after three
/// passes over the board. Every group lists distinct covered tiles, and the
/// bounds each numbered tile gives by itself are among them.
pub fn get_subset_bounds(board: &Board) -> (r: (SubsetBounds, SubsetBounds))
    requires
        board.wf(),
    ensures
        forall|bombs: Set<TilePos>|
            #[trigger] consistent(*board, bombs) ==> lower_sound(r.0@, bombs) && upper_sound(
                r.1@,
                bombs,
            ),
        keys_ok(*board, r.0@),
        keys_ok(*board, r.1@),
        forall|p: TilePos| #[trigger] seeded(*board, p, r.0@, r.1@),
{
    let mut min_bombs = SubsetBounds::new();
    let mut max_bombs = SubsetBounds::new();
    let mut pass: usize = 0;
    while pass < 3
        invariant
            board.wf(),
            pass <= 3,
            forall|bombs: Set<TilePos>|
                #[trigger] consistent(*board, bombs) ==> both_sound(min_bombs@, max_bombs@, bombs),
            keys_ok(*board, min_bombs@),
            keys_ok(*board, max_bombs@),
            pass > 0 ==> forall|p: TilePos| #[trigger] seeded(*board, p, min_bombs@, max_bombs@),
        decreases 3 - pass,
    {
        update_subset_bounds(board, &mut min_bombs, &mut max_bombs);
        pass = pass + 1;
    }
    (min_bombs, max_bombs)
}

/// An action that is certain whatever the bombs under the covered tiles, as
/// long as they agree with the board.
pub open spec fn certain(b: Board, a: Action) -> bool {
    &&& b.in_bounds(a.pos)
    &&& b.state(a.pos) == TileState::Covered
    &&& forall|bombs: Set<TilePos>|
        #[trigger] consistent(b, bombs) ==> (a.action_type == ActionType::Flag ==> bombs.contains(
            a.pos,
        )) && (a.action_type == ActionType::Uncover ==> !bombs.contains(a.pos))
}

/// A numbered tile.
pub open spec fn numbered(b: Board, p: TilePos) -> bool {
    b.in_bounds(p) && b.state(p) is UncoveredSafe
}

/// The covered neighbours of the numbered tile `q`, two or more, are some but
/// not all of those of the numbered tile `p`, and `a` is a move on one of the
/// others that the two counts force: safe where both tiles need as many
/// bombs, a bomb where `p` needs one more for each of the others.
pub open spec fn subset_rule(b: Board, p: TilePos, q: TilePos, a: Action) -> bool {
    &&& numbered(b, p)
    &&& numbered(b, q)
    &&& covered_around(b, q).len() >= 2
    &&& covered_around(b, q).len() < covered_around(b, p).len()
    &&& forall|x: TilePos| covered_around(b, q).contains(x) ==> covered_around(b, p).contains(x)
    &&& covered_around(b, p).contains(a.pos)
    &&& !covered_around(b, q).contains(a.pos)
    &&& {
        ||| (a.action_type == ActionType::Uncover && needed(b, q) == needed(b, p))
        ||| (a.action_type == ActionType::Flag && needed(b, p) - needed(b, q) == minus(
            covered_around(b, p),
            covered_around(b, q),
        ).len())
    }
}

/// The group `S`, the `j`-th group of all but some of the covered neighbours
/// of `p`, is also the `k`-th group of covered neighbours of `q`, and `a` is a
/// move on a neighbour of `p` outside `S` that the bounds `q` gives `S`
/// force: a bomb where `S` can hold no more than `q`'s count and `p` needs
/// all the others to be bombs; safe where `S` misses one neighbour of `q`, so
/// holds at least `q`'s count less one, and that already meets `p`'s count.
pub open spec fn group_rule(b: Board, p: TilePos, q: TilePos, j: int, k: int, a: Action) -> bool {
    let cp = covered_around(b, p);
    let groups = subsets_upto(cp, cp.len() - 1);
    &&& numbered(b, p)
    &&& numbered(b, q)
    &&& 0 <= j < groups.len()
    &&& 0 <= k < groups_of(b, q).len()
    &&& groups_of(b, q)[k] == groups[j]
    &&& minus(cp, groups[j]).contains(a.pos)
    &&& {
        ||| (a.action_type == ActionType::Flag && groups[j].len() > needed(b, q) && needed(b, q)
            + minus(cp, groups[j]).len() == needed(b, p))
        ||| (a.action_type == ActionType::Uncover && minus(covered_around(b, q), groups[j]).len()
            == 1 && needed(b, q) >= 2 && needed(b, q) - 1 == needed(b, p))
    }
}

/// Moves that follow from combining the constraints of neighbouring numbered
/// tiles: for each numbered tile and each group of all but some of its covered
/// neighbours, the rest are bombs when the group holds too few bombs to reach
/// the count without them, and safe when the group already holds the count.
/// Every move returned is certain, and on a board that some placement of bombs
/// agrees with, every move that one numbered tile's neighbours inside
/// another's force is returned.
pub fn get_non_trivial_actions(board: &Board) -> (r: Vec<Action>)
    requires
        board.wf(),
        crate::agent::flags_fit(*board),
    ensures
        forall|a: Action| r@.contains(a) ==> certain(*board, a),
        r@.no_duplicates(),
        (exists|bombs: Set<TilePos>| consistent(*board, bombs)) ==> forall|
            p: TilePos,
            q: TilePos,
            a: Action,
        | #[trigger] subset_rule(*board, p, q, a) ==> r@.contains(a),
        (exists|bombs: Set<TilePos>| consistent(*board, bombs)) ==> forall|
            p: TilePos,
            q: TilePos,
            j: int,
            k: int,
            a: Action,
        | #[trigger] group_rule(*board, p, q, j, k, a) ==> r@.contains(a),
{
    let mut output: Vec<Action> = Vec::new();
    let (mut min_bombs, mut max_bombs) = get_subset_bounds(board);
    let mut col: usize = 0;
    while col < board.width()
        invariant
            board.wf(),
            col <= board.w(),
            forall|a: Action| output@.contains(a) ==> certain(*board, a),
            forall|bombs: Set<TilePos>|
                #[trigger] consistent(*board, bombs) ==> both_sound(min_bombs@, max_bombs@, bombs),
            forall|p: TilePos| #[trigger] seeded(*board, p, min_bombs@, max_bombs@),
            (exists|bombs: Set<TilePos>| consistent(*board, bombs)) ==> forall|
                p: TilePos,
                q: TilePos,
                a: Action,
            | p.col < col && #[trigger] subset_rule(*board, p, q, a) ==> output@.contains(a),
            (exists|bombs: Set<TilePos>| consistent(*board, bombs)) ==> forall|
                p: TilePos,
                q: TilePos,
                j: int,
                k: int,
                a: Action,
            | p.col < col && #[trigger] group_rule(*board, p, q, j, k, a) ==> output@.contains(a),
        decreases board.w() - col,
    {
        let mut row: usize = 0;
        while row < board.height()
            invariant
                board.wf(),
                col < board.w(),
                row <= board.h(),
                forall|a: Action| output@.contains(a) ==> certain(*board, a),
                forall|bombs: Set<TilePos>|
                    #[trigger] consistent(*board, bombs) ==> both_sound(min_bombs@, max_bombs@, bombs),
                forall|p: TilePos| #[trigger] seeded(*board, p, min_bombs@, max_bombs@),
                (exists|bombs: Set<TilePos>| consistent(*board, bombs)) ==> forall|
                    p: TilePos,
                    q: TilePos,
                    a: Action,
                |
                    crate::agent::visited(p, col as int, row as int) && #[trigger] subset_rule(
                        *board,
                        p,
                        q,
                        a,
                    ) ==> output@.contains(a),
                (exists|bombs: Set<TilePos>| consistent(*board, bombs)) ==> forall|
                    p: TilePos,
                    q: TilePos,
                    j: int,
                    k: int,
                    a: Action,
                |
                    crate::agent::visited(p, col as int, row as int) && #[trigger] group_rule(
                        *board,
                        p,
                        q,
                        j,
                        k,
                        a,
                    ) ==> output@.contains(a),
            decreases board.h() - row,
        {
            let pos = TilePos { col, row };
            let ghost before_tile = output@;
            if let TileState::UncoveredSafe(n) = board.tile_state(pos) {
                let n = n.saturating_sub(num_bombs_around(board, pos));
                let covered = covered_neighbours(board, pos);
                let num_covered = covered.len();
                if num_covered > 0 {
                    let subs = subsets(covered.as_slice(), num_covered - 1);
                    proof {
                        lemma_subsets_upto(covered@, num_covered - 1);
                        crate::agent::lemma_covered_around(*board, pos);
                    }
                    let mut i: usize = 0;
                    while i < subs.len()
                        invariant
                            board.wf(),
                            board.in_bounds(pos),
                            board.state(pos) is UncoveredSafe,
                            n == needed(*board, pos),
                            covered@ == covered_around(*board, pos),
                            covered@.len() <= 8,
                            num_covered == covered@.len(),
                            num_covered > 0,
                            i <= subs@.len(),
                            subs@.map_values(|v: Vec<TilePos>| v@) == subsets_upto(
                                covered@,
                                num_covered - 1,
                            ),
                            forall|j: int|
                                0 <= j < subsets_upto(covered@, num_covered - 1).len() ==> {
                                    &&& (#[trigger] subsets_upto(covered@, num_covered - 1)[j]).len()
                                        <= num_covered - 1
                                    &&& forall|x: TilePos|
                                        subsets_upto(covered@, num_covered - 1)[j].contains(x)
                                            ==> covered@.contains(x)
                                },
                            forall|a: Action| output@.contains(a) ==> certain(*board, a),
                            forall|a: Action| before_tile.contains(a) ==> output@.contains(a),
                            forall|bombs: Set<TilePos>|
                                #[trigger] consistent(*board, bombs) ==> both_sound(
                                    min_bombs@,
                                    max_bombs@,
                                    bombs,
                                ),
                            forall|p: TilePos| #[trigger] seeded(*board, p, min_bombs@, max_bombs@),
                            (exists|bombs: Set<TilePos>| consistent(*board, bombs)) ==> forall|
                                q: TilePos,
                                a: Action,
                            |
                                #[trigger] subset_rule(*board, pos, q, a) && subsets_upto(
                                    covered@,
                                    num_covered - 1,
                                ).take(i as int).contains(covered_around(*board, q))
                                    ==> output@.contains(a),
                            (exists|bombs: Set<TilePos>| consistent(*board, bombs)) ==> forall|
                                q: TilePos,
                                j: int,
                                k: int,
                                a: Action,
                            | #[trigger] group_rule(*board, pos, q, j, k, a) && j < i
                                ==> output@.contains(a),
                        decreases subs@.len() - i,
                    {
                        let subset = &subs[i];
                        let ghost sub = subset@;
                        let ghost before_sub = output@;
                        proof {
                            assert(sub == subsets_upto(covered@, num_covered - 1)[i as int]);
                        }
                        let rest = set_difference(&covered, subset);
                        proof {
                            lemma_minus(covered@, subset@);
                            assert forall|bombs: Set<TilePos>| consistent(*board, bombs) implies cnt(
                                subset@,
                                bombs,
                            ) + cnt(rest@, bombs) == n by {
                                lemma_cnt_split(covered@, subset@, bombs);
                                assert(board.state(pos) is UncoveredSafe);
                            }
                            assert forall|q: TilePos| rest@.contains(q) implies board.in_bounds(q)
                                && board.state(q) == TileState::Covered by {
                                lemma_covered_neighbour(*board, pos, q);
                            }
                        }
                        let ghost max_before = max_bombs@;
                        let ghost min_before = min_bombs@;
                        // so few bombs fit in the group that the rest must all be bombs
                        let max = max_in_subset(subset, &mut max_bombs);
                        proof {
                            assert forall|p: TilePos| #[trigger] seeded(
                                *board,
                                p,
                                min_bombs@,
                                max_bombs@,
                            ) by {
                                assert(seeded(*board, p, min_before, max_before));
                                lemma_seeded_persists(
                                    *board,
                                    p,
                                    min_before,
                                    max_before,
                                    min_bombs@,
                                    max_bombs@,
                                );
                            }
                        }
                        let flag_rest = max as u32 + rest.len() as u32 == n as u32;
                        if flag_rest {
                            let ghost before = output@;
                            push_actions(&mut output, &rest, ActionType::Flag);
                            proof {
                                assert forall|a: Action| output@.contains(a) implies certain(
                                    *board,
                                    a,
                                ) by {
                                    if !before.contains(a) {
                                        assert forall|bombs: Set<TilePos>| #[trigger]
                                            consistent(*board, bombs) implies bombs.contains(
                                            a.pos,
                                        ) by {
                                            lemma_cnt_extremes(rest@, bombs);
                                        }
                                    }
                                }
                            }
                        }
                        // the group already holds the count, so the rest are safe
                        let ghost max_after = max_bombs@;
                        let ghost min_mid = min_bombs@;
                        let min = min_in_subset(subset, &mut min_bombs);
                        proof {
                            assert forall|p: TilePos| #[trigger] seeded(
                                *board,
                                p,
                                min_bombs@,
                                max_bombs@,
                            ) by {
                                assert(seeded(*board, p, min_mid, max_after));
                                lemma_seeded_persists(
                                    *board,
                                    p,
                                    min_mid,
                                    max_after,
                                    min_bombs@,
                                    max_bombs@,
                                );
                            }
                        }
                        let uncover_rest = min == n;
                        if uncover_rest {
                            let ghost before = output@;
                            push_actions(&mut output, &rest, ActionType::Uncover);
                            proof {
                                assert forall|a: Action| output@.contains(a) implies certain(
                                    *board,
                                    a,
                                ) by {
                                    if !before.contains(a) {
                                        assert forall|bombs: Set<TilePos>| #[trigger]
                                            consistent(*board, bombs) implies !bombs.contains(
                                            a.pos,
                                        ) by {
                                            lemma_cnt_extremes(rest@, bombs);
                                        }
                                    }
                                }
                            }
                        }
                        proof {
                            if exists|bombs: Set<TilePos>| consistent(*board, bombs) {
                                let bombs = choose|bombs: Set<TilePos>| consistent(*board, bombs);
                                assert forall|q: TilePos, j: int, k: int, a: Action|
                                    #[trigger] group_rule(*board, pos, q, j, k, a) && j < i + 1
                                        implies output@.contains(a) by {
                                    if j < i {
                                        assert(before_sub.contains(a));
                                    } else {
                                        assert(sub == subsets_upto(covered@, num_covered - 1)[j]);
                                        assert(rest@ == minus(covered@, sub));
                                        assert(rest@.contains(a.pos));
                                        assert(seeded(*board, q, min_before, max_before));
                                        assert(cnt(sub, bombs) + cnt(rest@, bombs) == n);
                                        lemma_cnt_bound(rest@, bombs);
                                        lemma_cnt_bound(sub, bombs);
                                        assert(upper_sound(max_after, bombs));
                                        assert(lower_sound(min_bombs@, bombs));
                                        if a.action_type == ActionType::Flag {
                                            assert(groups_of(*board, q)[k] == sub);
                                            assert(max_before.contains_key(sub));
                                            assert(max == needed(*board, q));
                                            assert(flag_rest);
                                        } else {
                                            assert(groups_of(*board, q)[k] == sub);
                                            assert(min_before.contains_key(sub));
                                            assert(min_mid.contains_key(sub));
                                            assert(min == n);
                                            assert(uncover_rest);
                                        }
                                    }
                                }
                                assert forall|q: TilePos, a: Action|
                                    #[trigger] subset_rule(*board, pos, q, a) && subsets_upto(
                                        covered@,
                                        num_covered - 1,
                                    ).take(i + 1).contains(covered_around(*board, q))
                                        implies output@.contains(a) by {
                                    lemma_take_step(
                                        subsets_upto(covered@, num_covered - 1),
                                        i as int,
                                        covered_around(*board, q),
                                    );
                                    if subsets_upto(covered@, num_covered - 1).take(
                                        i as int,
                                    ).contains(covered_around(*board, q)) {
                                        assert(before_sub.contains(a));
                                    } else {
                                        assert(sub == covered_around(*board, q));
                                        assert(numbered(*board, q));
                                        assert(cnt(sub, bombs) == needed(*board, q));
                                        assert(seeded(*board, q, min_before, max_before));
                                        assert(max_before.contains_key(sub));
                                        assert(upper_sound(max_after, bombs));
                                        assert(lower_sound(min_bombs@, bombs));
                                        assert(!covered_around(*board, q).contains(a.pos));
                                        if a.action_type == ActionType::Flag {
                                            assert(max == needed(*board, q));
                                            assert(flag_rest);
                                            assert(rest@.contains(a.pos));
                                        } else {
                                            if needed(*board, q) > 0 {
                                                assert(min_mid.contains_key(sub));
                                            }
                                            assert(min == needed(*board, q));
                                            assert(uncover_rest);
                                            assert(rest@.contains(a.pos));
                                        }
                                    }
                                }
                            }
                        }
                        i = i + 1;
                    }
                    proof {
                        if exists|bombs: Set<TilePos>| consistent(*board, bombs) {
                            assert forall|q: TilePos, a: Action| #[trigger]
                                subset_rule(*board, pos, q, a) implies output@.contains(a) by {
                                let cq = covered_around(*board, q);
                                crate::agent::lemma_covered_around(*board, q);
                                lemma_combos_complete(covered@, cq);
                                lemma_subsets_upto_contains(covered@, cq, num_covered - 1);
                                assert(subsets_upto(covered@, num_covered - 1).take(
                                    subs@.len() as int,
                                ) == subsets_upto(covered@, num_covered - 1));
                            }
                        }
                    }
                } else {
                    assert forall|q: TilePos, a: Action| !subset_rule(*board, pos, q, a) by {}
                    assert forall|q: TilePos, j: int, k: int, a: Action|
                        !group_rule(*board, pos, q, j, k, a) by {}
                }
            } else {
                assert forall|q: TilePos, a: Action| !subset_rule(*board, pos, q, a) by {}
                assert forall|q: TilePos, j: int, k: int, a: Action|
                    !group_rule(*board, pos, q, j, k, a) by {}
            }
            proof {
                if exists|bombs: Set<TilePos>| consistent(*board, bombs) {
                    assert forall|p: TilePos, q: TilePos, a: Action|
                        crate::agent::visited(p, col as int, row + 1) && #[trigger] subset_rule(
                            *board,
                            p,
                            q,
                            a,
                        ) implies output@.contains(a) by {
                        if p != pos {
                            assert(crate::agent::visited(p, col as int, row as int));
                            assert(before_tile.contains(a));
                        }
                    }
                    assert forall|p: TilePos, q: TilePos, j: int, k: int, a: Action|
                        crate::agent::visited(p, col as int, row + 1) && #[trigger] group_rule(
                            *board,
                            p,
                            q,
                            j,
                            k,
                            a,
                        ) implies output@.contains(a) by {
                        if p != pos {
                            assert(crate::agent::visited(p, col as int, row as int));
                            assert(before_tile.contains(a));
                        }
                    }
                }
            }
            row = row + 1;
        }
        proof {
            if exists|bombs: Set<TilePos>| consistent(*board, bombs) {
                assert forall|p: TilePos, q: TilePos, a: Action|
                    p.col < col + 1 && #[trigger] subset_rule(*board, p, q, a) implies output@.contains(
                    a,
                ) by {
                    assert(crate::agent::visited(p, col as int, board.h() as int));
                }
                assert forall|p: TilePos, q: TilePos, j: int, k: int, a: Action|
                    p.col < col + 1 && #[trigger] group_rule(*board, p, q, j, k, a) implies output@.contains(
                    a,
                ) by {
                    assert(crate::agent::visited(p, col as int, board.h() as int));
                }
            }
        }
        col = col + 1;
    }
    let r = deduplicate(output);
    proof {
        if exists|bombs: Set<TilePos>| consistent(*board, bombs) {
            assert forall|p: TilePos, q: TilePos, a: Action| #[trigger]
                subset_rule(*board, p, q, a) implies r@.contains(a) by {
                assert(p.col < col);
            }
            assert forall|p: TilePos, q: TilePos, j: int, k: int, a: Action| #[trigger]
                group_rule(*board, p, q, j, k, a) implies r@.contains(a) by {
                assert(p.col < col);
            }
        }
    }
    r
}

impl SubsetBounds {
    /// The groups of tiles with a recorded bound, possibly with repeats.
    pub fn groups(&self) -> (r: Vec<Vec<TilePos>>)
        ensures
            forall|k: Seq<TilePos>|
                self@.contains_key(k) ==> exists|i: int| 0 <= i < r@.len() && #[trigger] r@[i]@ == k,
    {
        let mut out: Vec<Vec<TilePos>> = Vec::new();
        let mut i: usize = 0;
        while i < self.entries.len()
            invariant
                i <= self.entries@.len(),
                out@.len() == i,
                forall|j: int| 0 <= j < i ==> (#[trigger] out@[j])@ == self.entries@[j].0@,
            decreases self.entries@.len() - i,
        {
            out.push(self.entries[i].0.clone());
            i = i + 1;
        }
        proof {
            Self::lemma_map_of_keys(self.entries@);
            assert forall|k: Seq<TilePos>| self@.contains_key(k) implies exists|i: int|
                0 <= i < out@.len() && #[trigger] out@[i]@ == k by {
                let i = choose|i: int| 0 <= i < self.entries@.len() && self.entries@[i].0@ == k;
                assert(out@[i]@ == k);
            }
        }
        out
    }

    proof fn lemma_map_of_keys(e: Seq<(Vec<TilePos>, u8)>)
        ensures
            forall|k: Seq<TilePos>|
                map_of(e).contains_key(k) ==> exists|i: int| 0 <= i < e.len() && e[i].0@ == k,
        decreases e.len(),
    {
        if e.len() > 0 {
            Self::lemma_map_of_keys(e.drop_last());
            assert forall|k: Seq<TilePos>| map_of(e).contains_key(k) implies exists|i: int|
                0 <= i < e.len() && e[i].0@ == k by {
                if k != e.last().0@ {
                    assert(map_of(e) == map_of(e.drop_last()).insert(e.last().0@, e.last().1));
                    assert(map_of(e.drop_last()).contains_key(k));
                    let i = choose|i: int|
                        0 <= i < e.drop_last().len() && e.drop_last()[i].0@ == k;
                    assert(e[i] == e.drop_last()[i]);
                } else {
                    assert(e[e.len() - 1].0@ == k);
                }
            }
        }
    }
}

/// A group whose lower and upper bounds agree, holding `pos`.
pub open spec fn exact_group(
    min_bombs: Map<Seq<TilePos>, u8>,
    max_bombs: Map<Seq<TilePos>, u8>,
    pos: TilePos,
    k: Seq<TilePos>,
) -> bool {
    min_bombs.contains_key(k) && max_bombs.contains_key(k) && min_bombs[k] == max_bombs[k]
        && k.contains(pos)
}

/// The bomb density of group `k`, in parts per ten thousand.
pub open spec fn density(min_bombs: Map<Seq<TilePos>, u8>, k: Seq<TilePos>) -> int {
    10000 * min_bombs[k] as int / k.len() as int
}

/// The greatest bomb density, in parts per ten thousand, of the groups
/// holding `pos` whose lower and upper bounds agree; `None` where no such
/// group is recorded.
pub fn exact_density(min_bombs: &SubsetBounds, max_bombs: &SubsetBounds, pos: TilePos) -> (r: Option<
    usize,
>)
    ensures
        r matches Some(d) ==> exists|k: Seq<TilePos>|
            #[trigger] exact_group(min_bombs@, max_bombs@, pos, k) && d == density(min_bombs@, k),
        r matches Some(d) ==> forall|k: Seq<TilePos>|
            #[trigger] exact_group(min_bombs@, max_bombs@, pos, k) ==> density(min_bombs@, k) <= d,
        r is None ==> forall|k: Seq<TilePos>| !#[trigger] exact_group(min_bombs@, max_bombs@, pos, k),
{
    let groups = min_bombs.groups();
    let mut best: Option<usize> = None;
    let mut i: usize = 0;
    while i < groups.len()
        invariant
            i <= groups@.len(),
            forall|k: Seq<TilePos>|
                min_bombs@.contains_key(k) ==> exists|j: int|
                    0 <= j < groups@.len() && #[trigger] groups@[j]@ == k,
            best matches Some(d) ==> exists|k: Seq<TilePos>|
                #[trigger] exact_group(min_bombs@, max_bombs@, pos, k) && d == density(
                    min_bombs@,
                    k,
                ),
            forall|j: int|
                0 <= j < i && exact_group(min_bombs@, max_bombs@, pos, #[trigger] groups@[j]@)
                    ==> (best matches Some(d) && density(min_bombs@, groups@[j]@) <= d),
        decreases groups@.len() - i,
    {
        let group = &groups[i];
        if crate::bits::contains_pos(group.as_slice(), pos) {
            match (min_bombs.get(group), max_bombs.get(group)) {
                (Some(lo), Some(hi)) => {
                    if lo == hi && group.len() > 0 {
                        let d = (10000 * lo as usize) / group.len();
                        assert(exact_group(min_bombs@, max_bombs@, pos, group@));
                        let better = match best {
                            Some(b) => d > b,
                            None => true,
                        };
                        if better {
                            best = Some(d);
                        }
                    }
                },
                _ => {},
            }
        }
        proof {
            assert forall|j: int|
                0 <= j < i + 1 && exact_group(min_bombs@, max_bombs@, pos, #[trigger] groups@[j]@)
                    implies (best matches Some(d) && density(min_bombs@, groups@[j]@) <= d) by {
                if j == i && group@.len() == 0 {
                    assert(group@.contains(pos));
                }
            }
        }
        i = i + 1;
    }
    proof {
        assert forall|k: Seq<TilePos>| #[trigger] exact_group(min_bombs@, max_bombs@, pos, k) implies (best matches Some(d)
            && density(min_bombs@, k) <= d) by {
            let j = choose|j: int| 0 <= j < groups@.len() && #[trigger] groups@[j]@ == k;
        }
    }
    best
}

} // verus!
