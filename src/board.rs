use vstd::prelude::*;

use rand::rngs::StdRng;
use rand::SeedableRng;

use crate::difficulty::Difficulty;

verus! {

/// A cell of the grid, by column and row.
#[derive(Clone, Copy, PartialEq, Eq, Structural, Debug, Hash, PartialOrd, Ord)]
pub struct TilePos {
    pub col: usize,
    pub row: usize,
}

/// What a player can see of a tile.
#[derive(Clone, Copy, PartialEq, Eq, Structural, Debug)]
pub enum TileState {
    Covered,
    Flagged,
    ExplodedBomb,
    UncoveredBomb,
    UncoveredSafe(u8),
    Misflagged,
}

#[derive(Clone, Copy, PartialEq, Eq, Structural, Debug)]
pub enum ActionType {
    Flag,
    Uncover,
}

/// A move on one tile.
#[derive(Clone, Copy, PartialEq, Eq, Structural, Debug)]
pub struct Action {
    pub pos: TilePos,
    pub action_type: ActionType,
}

impl Action {
    pub fn uncover(pos: TilePos) -> (r: Action)
        ensures
            r == (Action { pos, action_type: ActionType::Uncover }),
    {
        Action { pos, action_type: ActionType::Uncover }
    }

    pub fn flag(pos: TilePos) -> (r: Action)
        ensures
            r == (Action { pos, action_type: ActionType::Flag }),
    {
        Action { pos, action_type: ActionType::Flag }
    }
}

pub open spec fn abs_diff_spec(a: usize, b: usize) -> nat {
    if a >= b {
        (a - b) as nat
    } else {
        (b - a) as nat
    }
}

impl TilePos {
    pub open spec fn sq_dist(self, other: TilePos) -> nat {
        let dc = abs_diff_spec(self.col, other.col);
        let dr = abs_diff_spec(self.row, other.row);
        dc * dc + dr * dr
    }

    /// Squared Euclidean distance between two cells.
    pub fn squared_distance(self, other: TilePos) -> (r: usize)
        requires
            self.sq_dist(other) <= usize::MAX,
        ensures
            r == self.sq_dist(other),
    {
        let dc = if self.col >= other.col {
            self.col - other.col
        } else {
            other.col - self.col
        };
        let dr = if self.row >= other.row {
            self.row - other.row
        } else {
            other.row - self.row
        };
        assert(dc * dc <= self.sq_dist(other) && dr * dr <= self.sq_dist(other)) by (nonlinear_arith)
            requires
                self.sq_dist(other) == dc * dc + dr * dr,
        ;
        dc * dc + dr * dr
    }
}

/// The visible state of a game: grid size, tile states and the number of
/// bombs not yet flagged.
#[derive(Clone, Debug)]
pub struct Board {
    width: usize,
    height: usize,
    tile_states: Vec<TileState>,
    bombs: Vec<bool>,
    num_bombs_left: isize,
    num_bombs_total: usize,
    first_uncovered: bool,
    seed: u64,
}

/// The outcome of a move.
#[derive(Clone, Copy, PartialEq, Eq, Structural, Debug)]
pub enum ActionResult {
    Win,
    Lose,
    Continue,
}

impl TileState {
    /// The index of the tile's picture in the sprite sheet.
    pub fn sheet_index(&self) -> (r: usize)
        ensures
            r == match *self {
                TileState::Covered => 0,
                TileState::Flagged => 1,
                TileState::UncoveredBomb => 2,
                TileState::UncoveredSafe(n) => 3 + n,
                TileState::Misflagged => 12,
                TileState::ExplodedBomb => 13,
            },
    {
        match self {
            TileState::Covered => 0,
            TileState::Flagged => 1,
            TileState::UncoveredBomb => 2,
            TileState::UncoveredSafe(n) => 3 + *n as usize,
            TileState::Misflagged => 12,
            TileState::ExplodedBomb => 13,
        }
    }
}

/// `n` tiles, none of them a bomb.
fn no_bombs(n: usize) -> (r: Vec<bool>)
    ensures
        r@.len() == n,
        forall|i: int| 0 <= i < n ==> !r@[i],
{
    let mut v: Vec<bool> = Vec::new();
    let mut i: usize = 0;
    while i < n
        invariant
            i <= n,
            v@.len() == i,
            forall|j: int| 0 <= j < i ==> !v@[j],
        decreases n - i,
    {
        v.push(false);
        i = i + 1;
    }
    v
}

/// `n` tiles, all covered.
fn all_covered_states(n: usize) -> (r: Vec<TileState>)
    ensures
        r@.len() == n,
        forall|i: int| 0 <= i < n ==> r@[i] == TileState::Covered,
{
    let mut v: Vec<TileState> = Vec::new();
    let mut i: usize = 0;
    while i < n
        invariant
            i <= n,
            v@.len() == i,
            forall|j: int| 0 <= j < i ==> v@[j] == TileState::Covered,
        decreases n - i,
    {
        v.push(TileState::Covered);
        i = i + 1;
    }
    v
}

/// `a` comes before `b`, by column and then row.
pub open spec fn tile_lt(a: TilePos, b: TilePos) -> bool {
    a.col < b.col || (a.col == b.col && a.row < b.row)
}

/// Which of the nine candidates around `p` the tile `q` is.
pub open spec fn nb_index(p: TilePos, q: TilePos) -> int {
    (q.col - p.col + 1) * 3 + (q.row - p.row + 1)
}

/// The column and row offset of the `k`-th candidate neighbour, `k < 9`, in
/// the order columns first, then rows.
pub open spec fn cand_col(p: TilePos, k: int) -> int {
    p.col + k / 3 - 1
}

pub open spec fn cand_row(p: TilePos, k: int) -> int {
    p.row + k % 3 - 1
}

impl Board {
    pub closed spec fn w(self) -> nat {
        self.width as nat
    }

    pub closed spec fn h(self) -> nat {
        self.height as nat
    }

    pub closed spec fn tiles(self) -> Seq<TileState> {
        self.tile_states@
    }

    pub closed spec fn bombs_left(self) -> int {
        self.num_bombs_left as int
    }

    pub closed spec fn mines(self) -> Seq<bool> {
        self.bombs@
    }

    pub closed spec fn total(self) -> nat {
        self.num_bombs_total as nat
    }

    pub closed spec fn started(self) -> bool {
        self.first_uncovered
    }

    pub closed spec fn seed_spec(self) -> u64 {
        self.seed
    }

    pub open spec fn wf(self) -> bool {
        &&& self.tiles().len() == self.w() * self.h()
        &&& self.mines().len() == self.w() * self.h()
        &&& self.w() * self.h() <= isize::MAX
        &&& self.total() <= self.w() * self.h()
    }

    /// Whether the tile at `p` holds a bomb.
    pub open spec fn is_bomb(self, p: TilePos) -> bool {
        self.mines()[self.index_of(p)]
    }

    pub open spec fn in_bounds(self, p: TilePos) -> bool {
        p.col < self.w() && p.row < self.h()
    }

    pub open spec fn index_of(self, p: TilePos) -> int {
        self.w() * p.row + p.col
    }

    pub open spec fn state(self, p: TilePos) -> TileState {
        self.tiles()[self.index_of(p)]
    }

    pub open spec fn nb_ok(self, p: TilePos, k: int) -> bool {
        &&& 0 <= cand_col(p, k) < self.w()
        &&& 0 <= cand_row(p, k) < self.h()
        &&& k != 4
    }

    pub open spec fn nb_at(p: TilePos, k: int) -> TilePos {
        TilePos { col: cand_col(p, k) as usize, row: cand_row(p, k) as usize }
    }

    /// The neighbours among the first `k` candidates.
    pub open spec fn nbs_upto(self, p: TilePos, k: int) -> Seq<TilePos>
        decreases k,
    {
        if k <= 0 {
            seq![]
        } else if self.nb_ok(p, k - 1) {
            self.nbs_upto(p, k - 1).push(Self::nb_at(p, k - 1))
        } else {
            self.nbs_upto(p, k - 1)
        }
    }

    /// The up to eight cells around `p` that lie on the grid.
    pub open spec fn neighbours_of(self, p: TilePos) -> Seq<TilePos> {
        self.nbs_upto(p, 9)
    }

    /// A board with the given visible state, whose bombs are not known: as
    /// seen by a player.
    pub fn from_tile_states(
        width: usize,
        height: usize,
        tile_states: Vec<TileState>,
        num_bombs_left: isize,
    ) -> (r: Option<Board>)
        ensures
            r.is_some() <==> (tile_states@.len() == width * height && width * height
                <= isize::MAX),
            r matches Some(b) ==> {
                &&& b.wf()
                &&& b.w() == width
                &&& b.h() == height
                &&& b.tiles() == tile_states@
                &&& b.bombs_left() == num_bombs_left
                &&& b.started()
                &&& forall|i: int| 0 <= i < b.mines().len() ==> !b.mines()[i]
            },
    {
        let len = tile_states.len();
        match width.checked_mul(height) {
            Some(n) => {
                if len == n && n <= isize::MAX as usize {
                    let bombs = no_bombs(n);
                    Some(
                        Board {
                            width,
                            height,
                            tile_states,
                            bombs,
                            num_bombs_left,
                            num_bombs_total: 0,
                            first_uncovered: true,
                            seed: 0,
                        },
                    )
                } else {
                    None
                }
            },
            None => {
                assert(width * height > usize::MAX);
                None
            },
        }
    }

    pub fn num_bombs_total(&self) -> (r: usize)
        ensures
            r == self.total(),
    {
        self.num_bombs_total
    }

    pub fn seed(&self) -> (r: u64)
        ensures
            r == self.seed_spec(),
    {
        self.seed
    }

    pub fn first_uncovered(&self) -> (r: bool)
        ensures
            r == self.started(),
    {
        self.first_uncovered
    }

    pub fn width(&self) -> (r: usize)
        ensures
            r == self.w(),
    {
        self.width
    }

    pub fn height(&self) -> (r: usize)
        ensures
            r == self.h(),
    {
        self.height
    }

    pub fn num_bombs_left(&self) -> (r: isize)
        ensures
            r == self.bombs_left(),
    {
        self.num_bombs_left
    }

    pub fn tile_states(&self) -> (r: &Vec<TileState>)
        ensures
            r@ == self.tiles(),
    {
        &self.tile_states
    }

    pub proof fn lemma_index_in_range(self, p: TilePos)
        requires
            self.wf(),
            self.in_bounds(p),
        ensures
            0 <= self.index_of(p) < self.tiles().len(),
    {
        let w = self.w() as int;
        let h = self.h() as int;
        let c = p.col as int;
        let r = p.row as int;
        assert(0 <= w * r + c < w * h) by (nonlinear_arith)
            requires
                0 <= c < w,
                0 <= r < h,
        ;
    }

    pub proof fn lemma_nbs_in_bounds(self, p: TilePos, k: int)
        requires
            0 <= k,
        ensures
            forall|i: int|
                0 <= i < self.nbs_upto(p, k).len() ==> self.in_bounds(
                    #[trigger] self.nbs_upto(p, k)[i],
                ),
        decreases k,
    {
        if k > 0 {
            self.lemma_nbs_in_bounds(p, k - 1);
            let prev = self.nbs_upto(p, k - 1);
            if self.nb_ok(p, k - 1) {
                let q = Self::nb_at(p, k - 1);
                assert(q.col as int == cand_col(p, k - 1));
                assert(q.row as int == cand_row(p, k - 1));
                assert(self.in_bounds(q));
                assert forall|i: int| 0 <= i < self.nbs_upto(p, k).len() implies self.in_bounds(
                    #[trigger] self.nbs_upto(p, k)[i],
                ) by {
                    if i < prev.len() {
                        assert(self.nbs_upto(p, k)[i] == prev[i]);
                    }
                }
            }
        }
    }

    pub fn tile_state(&self, pos: TilePos) -> (r: TileState)
        requires
            self.wf(),
            self.in_bounds(pos),
        ensures
            r == self.state(pos),
    {
        proof {
            self.lemma_index_in_range(pos);
        }
        self.tile_states[self.width * pos.row + pos.col]
    }

    /// The cells around `pos`, columns first, then rows.
    pub fn neighbours(&self, pos: TilePos) -> (r: Vec<TilePos>)
        requires
            self.wf(),
            self.in_bounds(pos),
        ensures
            r@ == self.neighbours_of(pos),
            forall|i: int| 0 <= i < r@.len() ==> self.in_bounds(#[trigger] r@[i]),
    {
        let mut out: Vec<TilePos> = Vec::new();
        let mut k: usize = 0;
        while k < 9
            invariant
                k <= 9,
                self.wf(),
                self.in_bounds(pos),
                out@ == self.nbs_upto(pos, k as int),
                forall|i: int| 0 <= i < out@.len() ==> self.in_bounds(#[trigger] out@[i]),
            decreases 9 - k,
        {
            let dc: usize = k / 3;
            let dr: usize = k % 3;
            if (dc >= 1 || pos.col >= 1) && (dr >= 1 || pos.row >= 1) && k != 4 {
                let c = if dc == 0 {
                    pos.col - 1
                } else if dc == 1 {
                    pos.col
                } else {
                    pos.col + 1
                };
                let r = if dr == 0 {
                    pos.row - 1
                } else if dr == 1 {
                    pos.row
                } else {
                    pos.row + 1
                };
                if c < self.width && r < self.height {
                    out.push(TilePos { col: c, row: r });
                }
            }
            k = k + 1;
        }
        out
    }
}

/// The indices that the generator seeded with `seed` draws: `amount`
/// distinct indices below `length`.
pub uninterp spec fn seeded_sample(seed: u64, length: nat, amount: nat) -> Seq<usize>;

/// Relies on `rand::seq::index::sample` over a `StdRng` from
/// `SeedableRng::seed_from_u64`: exactly `amount` distinct indices below
/// `length`; `StdRng` is deterministic, so with this version of `rand` the
/// same seed gives the same indices.
#[verifier::external_body]
fn sample_indices(seed: u64, length: usize, amount: usize) -> (r: Vec<usize>)
    requires
        amount <= length,
    ensures
        r@ == seeded_sample(seed, length as nat, amount as nat),
        r@.len() == amount,
        r@.no_duplicates(),
        forall|i: int| 0 <= i < r@.len() ==> #[trigger] r@[i] < length,
{
    let mut rng = StdRng::seed_from_u64(seed);
    rand::seq::index::sample(&mut rng, length, amount).into_vec()
}

/// Relies on `rand::random`: a seed drawn at random.
#[verifier::external_body]
fn random_seed() -> (r: u64) {
    rand::random::<u64>()
}

/// How many covered tiles there are.
pub open spec fn covered_count(s: Seq<TileState>) -> nat
    decreases s.len(),
{
    if s.len() == 0 {
        0
    } else {
        covered_count(s.drop_last()) + if s.last() == TileState::Covered {
            1nat
        } else {
            0nat
        }
    }
}

pub proof fn lemma_covered_count_update(s: Seq<TileState>, i: int, v: TileState)
    requires
        0 <= i < s.len(),
    ensures
        s[i] == TileState::Covered && v != TileState::Covered ==> covered_count(s.update(i, v))
            + 1 == covered_count(s),
        s[i] == v ==> covered_count(s.update(i, v)) == covered_count(s),
    decreases s.len(),
{
    if i < s.len() - 1 {
        lemma_covered_count_update(s.drop_last(), i, v);
        assert(s.update(i, v).drop_last() == s.drop_last().update(i, v));
    } else {
        assert(s.update(i, v).drop_last() == s.drop_last());
    }
}

/// How many of the tiles of `s` hold a bomb.
pub open spec fn bombs_in(b: Board, s: Seq<TilePos>) -> nat
    decreases s.len(),
{
    if s.len() == 0 {
        0
    } else {
        bombs_in(b, s.drop_last()) + if b.is_bomb(s.last()) {
            1nat
        } else {
            0nat
        }
    }
}

pub proof fn lemma_bombs_in(b: Board, s: Seq<TilePos>)
    ensures
        bombs_in(b, s) <= s.len(),
        bombs_in(b, s) == 0 ==> forall|i: int| 0 <= i < s.len() ==> !b.is_bomb(#[trigger] s[i]),
    decreases s.len(),
{
    if s.len() > 0 {
        lemma_bombs_in(b, s.drop_last());
        assert forall|i: int| 0 <= i < s.len() - 1 implies s[i] == s.drop_last()[i] by {}
    }
}

/// Every revealed safe tile is free of bombs.
pub open spec fn reveals_only_safe(b: Board) -> bool {
    forall|i: int|
        0 <= i < b.tiles().len() ==> (#[trigger] b.tiles()[i]) is UncoveredSafe ==> !b.mines()[i]
}

/// The number of bombs left after changing a tile from `old_s` to `new_s`:
/// one fewer for a new flag, one more for a removed one.
pub open spec fn left_after(old_s: TileState, new_s: TileState, left: int) -> int {
    if old_s == new_s {
        left
    } else if old_s == TileState::Covered && new_s == TileState::Flagged {
        if left > isize::MIN {
            left - 1
        } else {
            left
        }
    } else if old_s == TileState::Flagged {
        if left < isize::MAX {
            left + 1
        } else {
            left
        }
    } else {
        left
    }
}

/// The state a tile shows once the game is lost: unflagged bombs shown,
/// wrong flags marked.
pub open spec fn loss_state(b: Board, q: TilePos) -> TileState {
    if b.is_bomb(q) && b.state(q) != TileState::Flagged {
        TileState::UncoveredBomb
    } else if !b.is_bomb(q) && b.state(q) == TileState::Flagged {
        TileState::Misflagged
    } else {
        b.state(q)
    }
}

/// Every safe tile has been uncovered.
pub open spec fn won(b: Board) -> bool {
    forall|q: TilePos|
        b.in_bounds(q) && !b.is_bomb(q) ==> b.state(q) != TileState::Covered && b.state(q)
            != TileState::Flagged
}

impl Board {
    /// Only the visible tiles and the count of bombs left may differ.
    pub open spec fn same_game(self, other: Board) -> bool {
        &&& self.w() == other.w()
        &&& self.h() == other.h()
        &&& self.mines() == other.mines()
        &&& self.total() == other.total()
        &&& self.started() == other.started()
        &&& self.seed_spec() == other.seed_spec()
    }

    /// A new game of the given difficulty, with bombs drawn from `seed`, or
    /// from a random seed where none is given.
    pub fn new(difficulty: Difficulty, seed: Option<u64>) -> (r: Board)
        ensures
            r.wf(),
            (r.w(), r.h()) == (difficulty.size_spec().0 as nat, difficulty.size_spec().1 as nat),
            r.total() == difficulty.bombs_spec(),
            r.bombs_left() == r.total(),
            !r.started(),
            forall|i: int| 0 <= i < r.tiles().len() ==> r.tiles()[i] == TileState::Covered,
            seed matches Some(s) ==> r.seed_spec() == s,
    {
        let (width, height) = difficulty.grid_size();
        let mut board = Board {
            width,
            height,
            tile_states: Vec::new(),
            bombs: Vec::new(),
            num_bombs_left: 0,
            num_bombs_total: difficulty.num_bombs(),
            first_uncovered: false,
            seed: 0,
        };
        board.reset(seed);
        board
    }

    /// Starts the game over: every tile covered and bombs drawn anew.
    pub fn reset(&mut self, seed: Option<u64>)
        requires
            old(self).w() * old(self).h() <= isize::MAX,
            old(self).total() <= old(self).w() * old(self).h(),
        ensures
            final(self).wf(),
            final(self).w() == old(self).w(),
            final(self).h() == old(self).h(),
            final(self).total() == old(self).total(),
            final(self).bombs_left() == final(self).total(),
            !final(self).started(),
            forall|i: int|
                0 <= i < final(self).tiles().len() ==> final(self).tiles()[i] == TileState::Covered,
            seed matches Some(s) ==> final(self).seed_spec() == s,
    {
        let n = self.width * self.height;
        self.tile_states = all_covered_states(n);
        let s = match seed {
            Some(s) => s,
            None => random_seed(),
        };
        self.sample_bombs(s);
        self.num_bombs_left = self.num_bombs_total as isize;
        self.first_uncovered = false;
    }

    /// Places the bombs that `seed` draws.
    fn sample_bombs(&mut self, seed: u64)
        requires
            old(self).w() * old(self).h() <= isize::MAX,
            old(self).total() <= old(self).w() * old(self).h(),
        ensures
            final(self).mines().len() == final(self).w() * final(self).h(),
            forall|i: int|
                0 <= i < final(self).mines().len() ==> (final(self).mines()[i] <==> seeded_sample(
                    seed,
                    (old(self).w() * old(self).h()) as nat,
                    old(self).total(),
                ).contains(i as usize)),
            final(self).seed_spec() == seed,
            final(self).w() == old(self).w(),
            final(self).h() == old(self).h(),
            final(self).tiles() == old(self).tiles(),
            final(self).total() == old(self).total(),
            final(self).bombs_left() == old(self).bombs_left(),
            final(self).started() == old(self).started(),
    {
        let n = self.width * self.height;
        let mut bombs = no_bombs(n);
        self.seed = seed;
        let sample = sample_indices(seed, n, self.num_bombs_total);
        let ghost sm = sample@;
        let mut k: usize = 0;
        while k < sample.len()
            invariant
                k <= sample@.len(),
                sm == sample@,
                bombs@.len() == n,
                forall|j: int| 0 <= j < sample@.len() ==> #[trigger] sample@[j] < n,
                forall|i: int|
                    0 <= i < n ==> (bombs@[i] <==> sm.take(k as int).contains(i as usize)),
            decreases sample@.len() - k,
        {
            let idx = sample[k];
            bombs.set(idx, true);
            proof {
                assert forall|i: int| 0 <= i < n implies (bombs@[i] <==> sm.take(k + 1).contains(
                    i as usize,
                )) by {
                    crate::seq_facts::lemma_take_step(sm, k as int, i as usize);
                }
            }
            k = k + 1;
        }
        proof {
            assert(sm.take(sm.len() as int) == sm);
        }
        self.bombs = bombs;
    }

    /// Whether the tile at `pos` holds a bomb.
    pub fn bomb(&self, pos: TilePos) -> (r: bool)
        requires
            self.wf(),
            self.in_bounds(pos),
        ensures
            r == self.is_bomb(pos),
    {
        proof {
            self.lemma_index_in_range(pos);
        }
        self.bombs[self.width * pos.row + pos.col]
    }

    /// Shows `state` on the tile at `pos`, counting flags in the bombs left.
    fn set(&mut self, pos: TilePos, state: TileState)
        requires
            old(self).wf(),
            old(self).in_bounds(pos),
        ensures
            final(self).wf(),
            final(self).same_game(*old(self)),
            final(self).tiles() == old(self).tiles().update(old(self).index_of(pos), state),
            final(self).bombs_left() == left_after(
                old(self).state(pos),
                state,
                old(self).bombs_left(),
            ),
    {
        proof {
            self.lemma_index_in_range(pos);
        }
        let index = self.width * pos.row + pos.col;
        let current = self.tile_states[index];
        if current == state {
            assert(self.tiles().update(index as int, state) =~= self.tiles());
            return;
        }
        if current == TileState::Covered && state == TileState::Flagged {
            if self.num_bombs_left > isize::MIN {
                self.num_bombs_left = self.num_bombs_left - 1;
            }
        } else if current == TileState::Flagged {
            if self.num_bombs_left < isize::MAX {
                self.num_bombs_left = self.num_bombs_left + 1;
            }
        }
        self.tile_states.set(index, state);
    }

    /// The number of bombs around `pos`.
    fn num_bombs_around(&self, pos: TilePos) -> (r: u8)
        requires
            self.wf(),
            self.in_bounds(pos),
        ensures
            r == bombs_in(*self, self.neighbours_of(pos)),
    {
        let nbs = self.neighbours(pos);
        proof {
            crate::agent::lemma_nbs_len(*self, pos, 9);
        }
        let mut count: u8 = 0;
        let mut i: usize = 0;
        while i < nbs.len()
            invariant
                self.wf(),
                nbs@ == self.neighbours_of(pos),
                nbs@.len() <= 8,
                forall|j: int| 0 <= j < nbs@.len() ==> self.in_bounds(#[trigger] nbs@[j]),
                i <= nbs@.len(),
                count == bombs_in(*self, nbs@.take(i as int)),
            decreases nbs@.len() - i,
        {
            proof {
                assert(nbs@.take(i + 1).drop_last() == nbs@.take(i as int));
                lemma_bombs_in(*self, nbs@.take(i as int));
            }
            if self.bomb(nbs[i]) {
                count = count + 1;
            }
            i = i + 1;
        }
        assert(nbs@.take(nbs@.len() as int) == nbs@);
        count
    }

    /// The neighbours of a tile come in column-then-row order.
    pub proof fn lemma_nbs_sorted(self, p: TilePos, k: int)
        requires
            0 <= k <= 9,
        ensures
            forall|a: int, b: int|
                0 <= a < b < self.nbs_upto(p, k).len() ==> tile_lt(
                    #[trigger] self.nbs_upto(p, k)[a],
                    #[trigger] self.nbs_upto(p, k)[b],
                ),
            forall|i: int|
                0 <= i < self.nbs_upto(p, k).len() ==> 0 <= nb_index(
                    p,
                    #[trigger] self.nbs_upto(p, k)[i],
                ) < k && (#[trigger] self.nbs_upto(p, k)[i]).col + 1 >= p.col
                    && self.nbs_upto(p, k)[i].row + 1 >= p.row && self.nbs_upto(p, k)[i].col <= p.col + 1
                    && self.nbs_upto(p, k)[i].row <= p.row + 1,
        decreases k,
    {
        if k > 0 {
            self.lemma_nbs_sorted(p, k - 1);
            let prev = self.nbs_upto(p, k - 1);
            let cur = self.nbs_upto(p, k);
            if self.nb_ok(p, k - 1) {
                let q = Self::nb_at(p, k - 1);
                assert(nb_index(p, q) == k - 1);
                assert forall|a: int, b: int| 0 <= a < b < cur.len() implies tile_lt(
                    #[trigger] cur[a],
                    #[trigger] cur[b],
                ) by {
                    if b < prev.len() {
                        assert(cur[a] == prev[a] && cur[b] == prev[b]);
                    } else {
                        assert(cur[a] == prev[a]);
                        assert(nb_index(p, prev[a]) < k - 1);
                    }
                }
                assert forall|i: int| 0 <= i < cur.len() implies 0 <= nb_index(
                    p,
                    #[trigger] cur[i],
                ) < k && cur[i].col + 1 >= p.col && cur[i].row + 1 >= p.row && cur[i].col <= p.col
                    + 1 && cur[i].row <= p.row + 1 by {
                    if i < prev.len() {
                        assert(cur[i] == prev[i]);
                    }
                }
            }
        }
    }

    /// The neighbours of a tile are listed once each.
    pub proof fn lemma_nbs_distinct(self, p: TilePos, k: int)
        requires
            0 <= k <= 9,
        ensures
            self.nbs_upto(p, k).no_duplicates(),
            forall|i: int|
                0 <= i < self.nbs_upto(p, k).len() ==> 0 <= nb_index(
                    p,
                    #[trigger] self.nbs_upto(p, k)[i],
                ) < k,
        decreases k,
    {
        if k > 0 {
            self.lemma_nbs_distinct(p, k - 1);
            let prev = self.nbs_upto(p, k - 1);
            let cur = self.nbs_upto(p, k);
            if self.nb_ok(p, k - 1) {
                let q = Self::nb_at(p, k - 1);
                assert(nb_index(p, q) == k - 1);
                assert forall|a: int, b: int|
                    0 <= a < cur.len() && 0 <= b < cur.len() && a != b implies cur[a] != cur[b] by {
                    if a < prev.len() && b < prev.len() {
                        assert(cur[a] == prev[a] && cur[b] == prev[b]);
                    } else if a < prev.len() {
                        assert(cur[a] == prev[a]);
                        assert(nb_index(p, prev[a]) < k - 1);
                    } else {
                        assert(cur[b] == prev[b]);
                        assert(nb_index(p, prev[b]) < k - 1);
                    }
                }
                assert forall|i: int| 0 <= i < cur.len() implies 0 <= nb_index(p, #[trigger] cur[i])
                    < k by {
                    if i < prev.len() {
                        assert(cur[i] == prev[i]);
                    }
                }
            }
        }
    }

    pub proof fn lemma_nbs_same_dims(self, other: Board, p: TilePos, k: int)
        requires
            self.w() == other.w(),
            self.h() == other.h(),
        ensures
            self.nbs_upto(p, k) == other.nbs_upto(p, k),
        decreases k,
    {
        if k > 0 {
            self.lemma_nbs_same_dims(other, p, k - 1);
        }
    }

    /// Uncovers the safe tile at `pos`, and, where no bomb is around it, every
    /// covered tile around it in turn.
    fn uncover_safe(&mut self, pos: TilePos)
        requires
            old(self).wf(),
            old(self).in_bounds(pos),
            old(self).state(pos) == TileState::Covered,
            !old(self).is_bomb(pos),
        ensures
            final(self).wf(),
            final(self).same_game(*old(self)),
            final(self).bombs_left() == old(self).bombs_left(),
            covered_count(final(self).tiles()) < covered_count(old(self).tiles()),
            final(self).state(pos) is UncoveredSafe,
            forall|i: int|
                0 <= i < old(self).tiles().len() && #[trigger] final(self).tiles()[i]
                    != old(self).tiles()[i] ==> old(self).tiles()[i] == TileState::Covered
                    && final(self).tiles()[i] is UncoveredSafe && !old(self).mines()[i],
        decreases covered_count(old(self).tiles()),
    {
        let ghost start = *self;
        assert(start == *old(self));
        let num_bombs = self.num_bombs_around(pos);
        proof {
            self.lemma_index_in_range(pos);
            lemma_covered_count_update(
                self.tiles(),
                self.index_of(pos),
                TileState::UncoveredSafe(num_bombs),
            );
        }
        self.set(pos, TileState::UncoveredSafe(num_bombs));
        if num_bombs == 0 {
            let nbs = self.neighbours(pos);
            proof {
                lemma_bombs_in(start, start.neighbours_of(pos));
                self.lemma_nbs_same_dims(start, pos, 9);
            }
            let mut k: usize = 0;
            while k < nbs.len()
                invariant
                    start == *old(self),
                    self.wf(),
                    self.same_game(start),
                    start.wf(),
                    start.in_bounds(pos),
                    self.bombs_left() == start.bombs_left(),
                    nbs@ == self.neighbours_of(pos),
                    nbs@ == start.neighbours_of(pos),
                    forall|j: int| 0 <= j < nbs@.len() ==> self.in_bounds(#[trigger] nbs@[j]),
                    forall|j: int| 0 <= j < nbs@.len() ==> !start.is_bomb(#[trigger] nbs@[j]),
                    k <= nbs@.len(),
                    covered_count(self.tiles()) < covered_count(start.tiles()),
                    self.state(pos) is UncoveredSafe,
                    forall|i: int|
                        0 <= i < start.tiles().len() && #[trigger] self.tiles()[i]
                            != start.tiles()[i] ==> start.tiles()[i] == TileState::Covered
                            && self.tiles()[i] is UncoveredSafe && !start.mines()[i],
                decreases nbs@.len() - k,
            {
                let q = nbs[k];
                if self.tile_state(q) == TileState::Covered {
                    let ghost mid = *self;
                    proof {
                        assert(!start.is_bomb(q));
                        assert(self.is_bomb(q) == start.is_bomb(q));
                    }
                    assert(covered_count(self.tiles()) < covered_count(old(self).tiles()));
                    self.uncover_safe(q);
                    proof {
                        self.lemma_nbs_same_dims(start, pos, 9);
                        self.lemma_index_in_range(pos);
                        assert forall|i: int|
                            0 <= i < start.tiles().len() && #[trigger] self.tiles()[i]
                                != start.tiles()[i] implies start.tiles()[i] == TileState::Covered
                                && self.tiles()[i] is UncoveredSafe && !start.mines()[i] by {
                            assert(self.tiles()[i] != mid.tiles()[i] || mid.tiles()[i]
                                != start.tiles()[i]);
                        }
                        assert(self.tiles()[self.index_of(pos)] == mid.tiles()[mid.index_of(pos)]);
                    }
                }
                k = k + 1;
            }
        }
        proof {
            assert forall|i: int|
                0 <= i < start.tiles().len() && #[trigger] self.tiles()[i] != start.tiles()[i]
                    implies start.tiles()[i] == TileState::Covered && self.tiles()[i] is UncoveredSafe
                && !start.mines()[i] by {}
        }
    }
}

impl Board {
    pub proof fn lemma_index_injective(self, p: TilePos, q: TilePos)
        requires
            self.in_bounds(p),
            self.in_bounds(q),
            self.index_of(p) == self.index_of(q),
        ensures
            p == q,
    {
        let w = self.w() as int;
        let (c1, r1, c2, r2) = (p.col as int, p.row as int, q.col as int, q.row as int);
        assert(r1 == r2 && c1 == c2) by (nonlinear_arith)
            requires
                0 <= c1 < w,
                0 <= c2 < w,
                0 <= r1,
                0 <= r2,
                w * r1 + c1 == w * r2 + c2,
        ;
    }

    /// After `set` on `pos`, every other tile shows what it showed before.
    proof fn lemma_set_others(self, before: Board, pos: TilePos, state: TileState)
        requires
            before.wf(),
            before.in_bounds(pos),
            self.same_game(before),
            self.tiles() == before.tiles().update(before.index_of(pos), state),
        ensures
            forall|q: TilePos|
                self.in_bounds(q) && q != pos ==> #[trigger] self.state(q) == before.state(q),
            self.state(pos) == state,
    {
        before.lemma_index_in_range(pos);
        assert forall|q: TilePos| self.in_bounds(q) && q != pos implies #[trigger] self.state(q)
            == before.state(q) by {
            before.lemma_index_in_range(q);
            if before.index_of(q) == before.index_of(pos) {
                before.lemma_index_injective(q, pos);
            }
        }
    }

    /// Shows every unflagged bomb and every wrong flag, and the bomb at `pos`
    /// as the one that went off.
    fn uncover_loss(&mut self, pos: TilePos)
        requires
            old(self).wf(),
            old(self).in_bounds(pos),
        ensures
            final(self).wf(),
            final(self).same_game(*old(self)),
            final(self).state(pos) == TileState::ExplodedBomb,
            forall|q: TilePos|
                final(self).in_bounds(q) && q != pos ==> #[trigger] final(self).state(q) == loss_state(
                    *old(self),
                    q,
                ),
    {
        let ghost start = *self;
        let mut col: usize = 0;
        while col < self.width
            invariant
                self.wf(),
                self.same_game(start),
                start.wf(),
                col <= self.w(),
                forall|q: TilePos|
                    self.in_bounds(q) ==> #[trigger] self.state(q) == if q.col < col {
                        loss_state(start, q)
                    } else {
                        start.state(q)
                    },
            decreases self.w() - col,
        {
            let mut row: usize = 0;
            while row < self.height
                invariant
                    self.wf(),
                    self.same_game(start),
                    start.wf(),
                    col < self.w(),
                    row <= self.h(),
                    forall|q: TilePos|
                        self.in_bounds(q) ==> #[trigger] self.state(q) == if crate::agent::visited(
                            q,
                            col as int,
                            row as int,
                        ) {
                            loss_state(start, q)
                        } else {
                            start.state(q)
                        },
                decreases self.h() - row,
            {
                let q = TilePos { col, row };
                let flagged = self.tile_state(q) == TileState::Flagged;
                let ghost before = *self;
                if self.bomb(q) && !flagged {
                    self.set(q, TileState::UncoveredBomb);
                    proof {
                        self.lemma_set_others(before, q, TileState::UncoveredBomb);
                    }
                } else if !self.bomb(q) && flagged {
                    self.set(q, TileState::Misflagged);
                    proof {
                        self.lemma_set_others(before, q, TileState::Misflagged);
                    }
                }
                proof {
                    assert forall|p: TilePos| self.in_bounds(p) implies #[trigger] self.state(p)
                        == if crate::agent::visited(p, col as int, row + 1) {
                        loss_state(start, p)
                    } else {
                        start.state(p)
                    } by {
                        if p != q {
                            assert(before.state(p) == self.state(p));
                        }
                    }
                }
                row = row + 1;
            }
            proof {
                assert forall|q: TilePos| self.in_bounds(q) implies #[trigger] self.state(q)
                    == if q.col < col + 1 {
                    loss_state(start, q)
                } else {
                    start.state(q)
                } by {
                    assert(crate::agent::visited(q, col as int, self.h() as int) == (q.col < col
                        + 1));
                }
            }
            col = col + 1;
        }
        let ghost before = *self;
        self.set(pos, TileState::ExplodedBomb);
        proof {
            self.lemma_set_others(before, pos, TileState::ExplodedBomb);
            assert forall|q: TilePos| self.in_bounds(q) && q != pos implies #[trigger] self.state(q)
                == loss_state(start, q) by {
                assert(before.state(q) == self.state(q));
            }
        }
    }

    /// Flags every bomb.
    fn flag_remaining(&mut self)
        requires
            old(self).wf(),
        ensures
            final(self).wf(),
            final(self).same_game(*old(self)),
            forall|q: TilePos|
                final(self).in_bounds(q) ==> #[trigger] final(self).state(q) == if old(self).is_bomb(
                    q,
                ) {
                    TileState::Flagged
                } else {
                    old(self).state(q)
                },
    {
        let ghost start = *self;
        let mut col: usize = 0;
        while col < self.width
            invariant
                self.wf(),
                self.same_game(start),
                start.wf(),
                col <= self.w(),
                forall|q: TilePos|
                    self.in_bounds(q) ==> #[trigger] self.state(q) == if q.col < col
                        && start.is_bomb(q) {
                        TileState::Flagged
                    } else {
                        start.state(q)
                    },
            decreases self.w() - col,
        {
            let mut row: usize = 0;
            while row < self.height
                invariant
                    self.wf(),
                    self.same_game(start),
                    start.wf(),
                    col < self.w(),
                    row <= self.h(),
                    forall|q: TilePos|
                        self.in_bounds(q) ==> #[trigger] self.state(q) == if crate::agent::visited(
                            q,
                            col as int,
                            row as int,
                        ) && start.is_bomb(q) {
                            TileState::Flagged
                        } else {
                            start.state(q)
                        },
                decreases self.h() - row,
            {
                let q = TilePos { col, row };
                let ghost before = *self;
                if self.bomb(q) {
                    self.set(q, TileState::Flagged);
                    proof {
                        self.lemma_set_others(before, q, TileState::Flagged);
                    }
                }
                proof {
                    assert forall|p: TilePos| self.in_bounds(p) implies #[trigger] self.state(p)
                        == if crate::agent::visited(p, col as int, row + 1) && start.is_bomb(p) {
                        TileState::Flagged
                    } else {
                        start.state(p)
                    } by {
                        if p != q {
                            assert(before.state(p) == self.state(p));
                        }
                    }
                }
                row = row + 1;
            }
            proof {
                assert forall|q: TilePos| self.in_bounds(q) implies #[trigger] self.state(q)
                    == if q.col < col + 1 && start.is_bomb(q) {
                    TileState::Flagged
                } else {
                    start.state(q)
                } by {
                    assert(crate::agent::visited(q, col as int, self.h() as int) == (q.col < col
                        + 1));
                }
            }
            col = col + 1;
        }
    }

    /// Whether every safe tile has been uncovered.
    fn check_win(&self) -> (r: bool)
        requires
            self.wf(),
        ensures
            r == won(*self),
    {
        let mut col: usize = 0;
        while col < self.width
            invariant
                self.wf(),
                col <= self.w(),
                forall|q: TilePos|
                    self.in_bounds(q) && q.col < col && !self.is_bomb(q) ==> #[trigger] self.state(q)
                        != TileState::Covered && self.state(q) != TileState::Flagged,
            decreases self.w() - col,
        {
            let mut row: usize = 0;
            while row < self.height
                invariant
                    self.wf(),
                    col < self.w(),
                    row <= self.h(),
                    forall|q: TilePos|
                        self.in_bounds(q) && crate::agent::visited(q, col as int, row as int)
                            && !self.is_bomb(q) ==> #[trigger] self.state(q) != TileState::Covered
                            && self.state(q) != TileState::Flagged,
                decreases self.h() - row,
            {
                let q = TilePos { col, row };
                let safe = !self.bomb(q);
                match self.tile_state(q) {
                    TileState::Covered | TileState::Flagged => {
                        if safe {
                            return false;
                        }
                    },
                    _ => {},
                }
                row = row + 1;
            }
            proof {
                assert forall|q: TilePos|
                    self.in_bounds(q) && q.col < col + 1 && !self.is_bomb(q) implies #[trigger] self.state(
                    q,
                ) != TileState::Covered && self.state(q) != TileState::Flagged by {
                    assert(crate::agent::visited(q, col as int, self.h() as int));
                }
            }
            col = col + 1;
        }
        true
    }

    /// The first move: draws the bombs again, from the next seeds, until the
    /// tile at `pos` and its neighbours are free of bombs, then uncovers it.
    /// `false` where the seeds run out first.
    fn uncover_first(&mut self, pos: TilePos) -> (r: bool)
        requires
            old(self).wf(),
            old(self).in_bounds(pos),
            old(self).state(pos) == TileState::Covered,
        ensures
            final(self).wf(),
            final(self).w() == old(self).w(),
            final(self).h() == old(self).h(),
            final(self).total() == old(self).total(),
            final(self).started() == old(self).started(),
            r ==> final(self).state(pos) is UncoveredSafe && !final(self).is_bomb(pos),
            !r ==> final(self).tiles() == old(self).tiles() && final(self).is_bomb(pos),
            r && reveals_only_safe(*old(self)) && (forall|i: int|
                0 <= i < old(self).tiles().len() ==> !(old(self).tiles()[i] is UncoveredSafe))
                ==> reveals_only_safe(*final(self)),
    {
        let ghost start = *self;
        while (self.num_bombs_around(pos) > 0 || self.bomb(pos)) && self.seed < u64::MAX
            invariant
                self.wf(),
                self.w() == start.w(),
                self.h() == start.h(),
                self.tiles() == start.tiles(),
                self.total() == start.total(),
                self.started() == start.started(),
                self.bombs_left() == start.bombs_left(),
                start.in_bounds(pos),
            decreases u64::MAX - self.seed,
        {
            let next = self.seed + 1;
            self.sample_bombs(next);
        }
        if self.bomb(pos) {
            return false;
        }
        let ghost before = *self;
        self.uncover_safe(pos);
        proof {
            if reveals_only_safe(start) && (forall|i: int|
                0 <= i < start.tiles().len() ==> !(start.tiles()[i] is UncoveredSafe)) {
                assert forall|i: int| 0 <= i < self.tiles().len() && (#[trigger] self.tiles()[i]) is UncoveredSafe implies !self.mines()[i] by {
                    assert(self.tiles()[i] != before.tiles()[i]);
                }
            }
        }
        true
    }

    /// Makes a move. Flagging toggles a flag on a covered or flagged tile.
    /// Uncovering a covered tile: the first time, the bombs are drawn so that
    /// it is safe; later, a bomb loses the game, and a safe tile is uncovered
    /// and wins the game once every safe tile is, all bombs then flagged.
    /// Any other move changes nothing.
    pub fn apply_action(&mut self, action: Action) -> (r: ActionResult)
        requires
            old(self).wf(),
            old(self).in_bounds(action.pos),
        ensures
            final(self).wf(),
            final(self).w() == old(self).w(),
            final(self).h() == old(self).h(),
            final(self).total() == old(self).total(),
            ({
                let pos = action.pos;
                let before = old(self).state(pos);
                match (before, action.action_type) {
                    (TileState::Covered, ActionType::Flag) => r == ActionResult::Continue
                        && final(self).state(pos) == TileState::Flagged && final(self).bombs_left()
                        == left_after(before, TileState::Flagged, old(self).bombs_left()),
                    (TileState::Flagged, ActionType::Flag) => r == ActionResult::Continue
                        && final(self).state(pos) == TileState::Covered && final(self).bombs_left()
                        == left_after(before, TileState::Covered, old(self).bombs_left()),
                    (TileState::Covered, ActionType::Uncover) => {
                        &&& final(self).started()
                        &&& old(self).started() && old(self).is_bomb(pos) ==> r == ActionResult::Lose
                            && final(self).state(pos) == TileState::ExplodedBomb
                        &&& old(self).started() && !old(self).is_bomb(pos) ==> r != ActionResult::Lose
                            && final(self).state(pos) is UncoveredSafe
                        &&& r == ActionResult::Win ==> won(*final(self))
                    },
                    _ => r == ActionResult::Continue && *final(self) == *old(self),
                }
            }),
    {
        let pos = action.pos;
        match (self.tile_state(pos), action.action_type) {
            (TileState::Covered, ActionType::Flag) => {
                let ghost before = *self;
                self.set(pos, TileState::Flagged);
                proof {
                    self.lemma_set_others(before, pos, TileState::Flagged);
                }
                ActionResult::Continue
            },
            (TileState::Flagged, ActionType::Flag) => {
                let ghost before = *self;
                self.set(pos, TileState::Covered);
                proof {
                    self.lemma_set_others(before, pos, TileState::Covered);
                }
                ActionResult::Continue
            },
            (TileState::Covered, ActionType::Uncover) => {
                if !self.first_uncovered {
                    let ok = self.uncover_first(pos);
                    self.first_uncovered = true;
                    if !ok {
                        self.uncover_loss(pos);
                        return ActionResult::Lose;
                    }
                    ActionResult::Continue
                } else if self.bomb(pos) {
                    self.uncover_loss(pos);
                    ActionResult::Lose
                } else {
                    self.uncover_safe(pos);
                    if self.check_win() {
                        let ghost after = *self;
                        self.flag_remaining();
                        proof {
                            assert forall|q: TilePos|
                                self.in_bounds(q) && !self.is_bomb(q) implies self.state(q)
                                != TileState::Covered && self.state(q) != TileState::Flagged by {
                                assert(self.state(q) == after.state(q));
                            }
                        }
                        return ActionResult::Win;
                    }
                    ActionResult::Continue
                }
            },
            _ => ActionResult::Continue,
        }
    }
}

} // verus!
