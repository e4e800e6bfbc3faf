use vstd::prelude::*;

use crate::board::{Action, ActionType, Board, TilePos, TileState};
use crate::deductions::{certain, get_non_trivial_actions};
use crate::guesses::make_guess;

verus! {

/// How many of the tiles of `s` are flagged.
pub open spec fn flagged_in(b: Board, s: Seq<TilePos>) -> nat
    decreases s.len(),
{
    if s.len() == 0 {
        0
    } else {
        flagged_in(b, s.drop_last()) + if b.state(s.last()) == TileState::Flagged {
            1nat
        } else {
            0nat
        }
    }
}

/// The tiles of `s` that are covered, in order.
pub open spec fn covered_in(b: Board, s: Seq<TilePos>) -> Seq<TilePos>
    decreases s.len(),
{
    if s.len() == 0 {
        seq![]
    } else if b.state(s.last()) == TileState::Covered {
        covered_in(b, s.drop_last()).push(s.last())
    } else {
        covered_in(b, s.drop_last())
    }
}

/// The tiles of `s` that are revealed and safe, in order.
pub open spec fn revealed_in(b: Board, s: Seq<TilePos>) -> Seq<TilePos>
    decreases s.len(),
{
    if s.len() == 0 {
        seq![]
    } else if b.state(s.last()) is UncoveredSafe {
        revealed_in(b, s.drop_last()).push(s.last())
    } else {
        revealed_in(b, s.drop_last())
    }
}

pub open spec fn flagged_around(b: Board, p: TilePos) -> nat {
    flagged_in(b, b.neighbours_of(p))
}

pub open spec fn covered_around(b: Board, p: TilePos) -> Seq<TilePos> {
    covered_in(b, b.neighbours_of(p))
}

pub open spec fn revealed_around(b: Board, p: TilePos) -> Seq<TilePos> {
    revealed_in(b, b.neighbours_of(p))
}

pub proof fn lemma_nbs_len(b: Board, p: TilePos, k: int)
    requires
        0 <= k,
    ensures
        b.nbs_upto(p, k).len() <= k,
        k >= 5 ==> b.nbs_upto(p, k).len() <= k - 1,
    decreases k,
{
    if k > 0 {
        lemma_nbs_len(b, p, k - 1);
    }
}

pub proof fn lemma_flagged_in_bound(b: Board, s: Seq<TilePos>)
    ensures
        flagged_in(b, s) <= s.len(),
    decreases s.len(),
{
    if s.len() > 0 {
        lemma_flagged_in_bound(b, s.drop_last());
    }
}

pub proof fn lemma_covered_in(b: Board, s: Seq<TilePos>)
    ensures
        covered_in(b, s).len() <= s.len(),
        forall|q: TilePos|
            covered_in(b, s).contains(q) <==> (s.contains(q) && b.state(q) == TileState::Covered),
    decreases s.len(),
{
    if s.len() > 0 {
        let rest = s.drop_last();
        lemma_covered_in(b, rest);
        assert forall|q: TilePos|
            covered_in(b, s).contains(q) <==> (s.contains(q) && b.state(q)
                == TileState::Covered) by {
            crate::seq_facts::lemma_push_contains(covered_in(b, rest), s.last(), q);
            crate::seq_facts::lemma_drop_last_contains(s, q);
        }
    }
}

/// Keeping only the covered tiles keeps a list free of repeats.
pub proof fn lemma_covered_in_distinct(b: Board, s: Seq<TilePos>)
    requires
        s.no_duplicates(),
    ensures
        covered_in(b, s).no_duplicates(),
    decreases s.len(),
{
    if s.len() > 0 {
        let rest = s.drop_last();
        assert(rest.no_duplicates()) by {
            assert forall|a: int, c: int|
                0 <= a < rest.len() && 0 <= c < rest.len() && a != c implies rest[a] != rest[c] by {
                assert(rest[a] == s[a] && rest[c] == s[c]);
            }
        }
        lemma_covered_in_distinct(b, rest);
        lemma_covered_in(b, rest);
        let m = covered_in(b, rest);
        if b.state(s.last()) == TileState::Covered {
            assert(!m.contains(s.last())) by {
                if m.contains(s.last()) {
                    let w = choose|w: int| 0 <= w < rest.len() && rest[w] == s.last();
                    assert(s[w] == s[s.len() - 1]);
                }
            }
            assert forall|a: int, c: int|
                0 <= a < m.len() + 1 && 0 <= c < m.len() + 1 && a != c implies m.push(s.last())[a]
                != m.push(s.last())[c] by {
                if a < m.len() && c < m.len() {
                } else if a < m.len() {
                    assert(m.contains(m[a]));
                } else {
                    assert(m.contains(m[c]));
                }
            }
        }
    }
}

proof fn tile_lt_last_holds(s: Seq<TilePos>, w: int)
    requires
        crate::deductions::sorted_tiles(s),
        0 <= w < s.len() - 1,
    ensures
        tile_lt_last(s, w),
{
    assert(crate::board::tile_lt(s[w], s[s.len() - 1]));
}

pub open spec fn tile_lt_last(s: Seq<TilePos>, w: int) -> bool {
    crate::board::tile_lt(s[w], s.last())
}

/// Keeping only the covered tiles keeps a list in order.
pub proof fn lemma_covered_in_sorted(b: Board, s: Seq<TilePos>)
    requires
        crate::deductions::sorted_tiles(s),
    ensures
        crate::deductions::sorted_tiles(covered_in(b, s)),
    decreases s.len(),
{
    if s.len() > 0 {
        let rest = s.drop_last();
        assert(crate::deductions::sorted_tiles(rest)) by {
            assert forall|a: int, c: int| 0 <= a < c < rest.len() implies crate::board::tile_lt(
                #[trigger] rest[a],
                #[trigger] rest[c],
            ) by {
                assert(rest[a] == s[a] && rest[c] == s[c]);
            }
        }
        lemma_covered_in_sorted(b, rest);
        lemma_covered_in(b, rest);
        let m = covered_in(b, rest);
        if b.state(s.last()) == TileState::Covered {
            assert forall|a: int, c: int| 0 <= a < c < m.len() + 1 implies crate::board::tile_lt(
                #[trigger] m.push(s.last())[a],
                #[trigger] m.push(s.last())[c],
            ) by {
                assert(m.push(s.last())[a] == m[a]);
                if c == m.len() {
                    assert(m.contains(m[a]));
                    assert(rest.contains(m[a]));
                    let w = choose|w: int| 0 <= w < rest.len() && rest[w] == m[a];
                    assert(s[w] == m[a]);
                    tile_lt_last_holds(s, w);
                } else {
                    assert(m.push(s.last())[c] == m[c]);
                }
            }
        }
    }
}

/// The covered neighbours of a tile are listed once each, in column-then-row
/// order, all on the board and covered.
pub proof fn lemma_covered_around(b: Board, p: TilePos)
    ensures
        covered_around(b, p).no_duplicates(),
        crate::deductions::sorted_tiles(covered_around(b, p)),
        forall|q: TilePos|
            covered_around(b, p).contains(q) ==> b.in_bounds(q) && b.state(q) == TileState::Covered,
{
    b.lemma_nbs_distinct(p, 9);
    b.lemma_nbs_sorted(p, 9);
    lemma_covered_in_sorted(b, b.neighbours_of(p));
    lemma_covered_in_distinct(b, b.neighbours_of(p));
    assert forall|q: TilePos| covered_around(b, p).contains(q) implies b.in_bounds(q) && b.state(
        q,
    ) == TileState::Covered by {
        lemma_covered_neighbour(b, p, q);
    }
}

/// The number of flagged tiles around `pos`.
pub fn num_bombs_around(board: &Board, pos: TilePos) -> (r: u8)
    requires
        board.wf(),
        board.in_bounds(pos),
    ensures
        r == flagged_around(*board, pos),
        r <= 8,
{
    let nbs = board.neighbours(pos);
    proof {
        lemma_nbs_len(*board, pos, 9);
    }
    let mut count: u8 = 0;
    let mut i: usize = 0;
    while i < nbs.len()
        invariant
            board.wf(),
            nbs@ == board.neighbours_of(pos),
            nbs@.len() <= 8,
            forall|j: int| 0 <= j < nbs@.len() ==> board.in_bounds(#[trigger] nbs@[j]),
            i <= nbs@.len(),
            count == flagged_in(*board, nbs@.take(i as int)),
        decreases nbs@.len() - i,
    {
        proof {
            assert(nbs@.take(i + 1).drop_last() == nbs@.take(i as int));
            lemma_flagged_in_bound(*board, nbs@.take(i as int));
        }
        if board.tile_state(nbs[i]) == TileState::Flagged {
            count = count + 1;
        }
        i = i + 1;
    }
    assert(nbs@.take(nbs@.len() as int) == nbs@);
    proof {
        lemma_flagged_in_bound(*board, nbs@);
    }
    count
}

/// The covered tiles around `pos`, in neighbour order.
pub fn covered_neighbours(board: &Board, pos: TilePos) -> (r: Vec<TilePos>)
    requires
        board.wf(),
        board.in_bounds(pos),
    ensures
        r@ == covered_around(*board, pos),
        r@.len() <= 8,
        forall|j: int| 0 <= j < r@.len() ==> board.in_bounds(#[trigger] r@[j]),
{
    let nbs = board.neighbours(pos);
    proof {
        lemma_nbs_len(*board, pos, 9);
    }
    let mut out: Vec<TilePos> = Vec::new();
    let mut i: usize = 0;
    while i < nbs.len()
        invariant
            board.wf(),
            nbs@ == board.neighbours_of(pos),
            nbs@.len() <= 8,
            forall|j: int| 0 <= j < nbs@.len() ==> board.in_bounds(#[trigger] nbs@[j]),
            i <= nbs@.len(),
            out@ == covered_in(*board, nbs@.take(i as int)),
            out@.len() <= i,
            forall|j: int| 0 <= j < out@.len() ==> board.in_bounds(#[trigger] out@[j]),
        decreases nbs@.len() - i,
    {
        proof {
            assert(nbs@.take(i + 1).drop_last() == nbs@.take(i as int));
        }
        if board.tile_state(nbs[i]) == TileState::Covered {
            out.push(nbs[i]);
        }
        i = i + 1;
    }
    assert(nbs@.take(nbs@.len() as int) == nbs@);
    out
}

/// The revealed safe tiles around `pos`, in neighbour order.
pub fn uncovered_neighbours(board: &Board, pos: TilePos) -> (r: Vec<TilePos>)
    requires
        board.wf(),
        board.in_bounds(pos),
    ensures
        r@ == revealed_around(*board, pos),
{
    let nbs = board.neighbours(pos);
    let mut out: Vec<TilePos> = Vec::new();
    let mut i: usize = 0;
    while i < nbs.len()
        invariant
            board.wf(),
            nbs@ == board.neighbours_of(pos),
            forall|j: int| 0 <= j < nbs@.len() ==> board.in_bounds(#[trigger] nbs@[j]),
            i <= nbs@.len(),
            out@ == revealed_in(*board, nbs@.take(i as int)),
        decreases nbs@.len() - i,
    {
        proof {
            assert(nbs@.take(i + 1).drop_last() == nbs@.take(i as int));
        }
        if let TileState::UncoveredSafe(_) = board.tile_state(nbs[i]) {
            out.push(nbs[i]);
        }
        i = i + 1;
    }
    assert(nbs@.take(nbs@.len() as int) == nbs@);
    out
}

/// The number of covered tiles around `pos`.
pub fn num_covered_around(board: &Board, pos: TilePos) -> (r: u8)
    requires
        board.wf(),
        board.in_bounds(pos),
    ensures
        r == covered_around(*board, pos).len(),
{
    covered_neighbours(board, pos).len() as u8
}

/// The first occurrence of each action of `s`, in order.
pub open spec fn first_occurrences(s: Seq<Action>) -> Seq<Action>
    decreases s.len(),
{
    if s.len() == 0 {
        seq![]
    } else if first_occurrences(s.drop_last()).contains(s.last()) {
        first_occurrences(s.drop_last())
    } else {
        first_occurrences(s.drop_last()).push(s.last())
    }
}

/// The actions of `output`, each once, in the order of their first occurrence.
pub fn deduplicate(output: Vec<Action>) -> (r: Vec<Action>)
    ensures
        r@ == first_occurrences(output@),
        forall|a: Action| r@.contains(a) <==> output@.contains(a),
        r@.no_duplicates(),
{
    let mut deduplicated: Vec<Action> = Vec::new();
    let mut i: usize = 0;
    while i < output.len()
        invariant
            i <= output@.len(),
            forall|a: Action| deduplicated@.contains(a) <==> output@.take(i as int).contains(a),
            deduplicated@.no_duplicates(),
            deduplicated@ == first_occurrences(output@.take(i as int)),
        decreases output@.len() - i,
    {
        let action = output[i];
        let mut seen = false;
        let mut k: usize = 0;
        while k < deduplicated.len()
            invariant
                k <= deduplicated@.len(),
                seen <==> exists|j: int| 0 <= j < k && deduplicated@[j] == action,
            decreases deduplicated@.len() - k,
        {
            if deduplicated[k] == action {
                seen = true;
            }
            k = k + 1;
        }
        let ghost old_d = deduplicated@;
        if !seen {
            deduplicated.push(action);
        }
        proof {
            assert(output@.take(i + 1).drop_last() == output@.take(i as int));
            assert(seen <==> old_d.contains(action)) by {
                if old_d.contains(action) {
                    let w = choose|w: int| 0 <= w < old_d.len() && old_d[w] == action;
                }
            }
            assert forall|a: Action| deduplicated@.contains(a) <==> output@.take(i + 1).contains(a) by {
                crate::seq_facts::lemma_take_step(output@, i as int, a);
                crate::seq_facts::lemma_push_contains(old_d, action, a);
            }
            if !seen {
                assert forall|x: int, y: int|
                    0 <= x < deduplicated@.len() && 0 <= y < deduplicated@.len() && x != y implies deduplicated@[x]
                    != deduplicated@[y] by {
                    if x < old_d.len() && y < old_d.len() {
                        assert(deduplicated@[x] == old_d[x] && deduplicated@[y] == old_d[y]);
                    }
                }
            }
        }
        i = i + 1;
    }
    assert(output@.take(output@.len() as int) == output@);
    deduplicated
}

/// No numbered tile has more flags around it than its number.
pub open spec fn flags_fit(b: Board) -> bool {
    forall|p: TilePos|
        b.in_bounds(p) ==> match #[trigger] b.state(p) {
            TileState::UncoveredSafe(n) => flagged_around(b, p) <= n,
            _ => true,
        }
}

/// Whether no numbered tile has more flags around it than its number.
pub fn flags_within_counts(board: &Board) -> (r: bool)
    requires
        board.wf(),
    ensures
        r == flags_fit(*board),
{
    let mut col: usize = 0;
    while col < board.width()
        invariant
            board.wf(),
            col <= board.w(),
            forall|p: TilePos|
                board.in_bounds(p) && p.col < col ==> match #[trigger] board.state(p) {
                    TileState::UncoveredSafe(n) => flagged_around(*board, p) <= n,
                    _ => true,
                },
        decreases board.w() - col,
    {
        let mut row: usize = 0;
        while row < board.height()
            invariant
                board.wf(),
                col < board.w(),
                row <= board.h(),
                forall|p: TilePos|
                    board.in_bounds(p) && visited(p, col as int, row as int) ==> match #[trigger] board.state(
                        p,
                    ) {
                        TileState::UncoveredSafe(n) => flagged_around(*board, p) <= n,
                        _ => true,
                    },
            decreases board.h() - row,
        {
            let pos = TilePos { col, row };
            if let TileState::UncoveredSafe(n) = board.tile_state(pos) {
                if num_bombs_around(board, pos) > n {
                    return false;
                }
            }
            proof {
                assert forall|p: TilePos|
                    board.in_bounds(p) && visited(p, col as int, row + 1) implies match #[trigger] board.state(
                        p,
                    ) {
                        TileState::UncoveredSafe(n) => flagged_around(*board, p) <= n,
                        _ => true,
                    } by {
                    if p != pos {
                        assert(visited(p, col as int, row as int));
                    }
                }
            }
            row = row + 1;
        }
        proof {
            assert forall|p: TilePos|
                board.in_bounds(p) && p.col < col + 1 implies match #[trigger] board.state(p) {
                    TileState::UncoveredSafe(n) => flagged_around(*board, p) <= n,
                    _ => true,
                } by {
                assert(visited(p, col as int, board.h() as int));
            }
        }
        col = col + 1;
    }
    true
}

/// No tile has been revealed or flagged yet.
pub open spec fn all_covered(b: Board) -> bool {
    forall|i: int| 0 <= i < b.tiles().len() ==> b.tiles()[i] == TileState::Covered
}

/// The fixed first move: column 2, middle row.
pub open spec fn opening_move(b: Board) -> Action {
    Action { pos: TilePos { col: 2, row: (b.h() / 2) as usize }, action_type: ActionType::Uncover }
}

pub open spec fn sat_sub(a: int, b: int) -> int {
    if a >= b {
        a - b
    } else {
        0
    }
}

/// The single-tile rules at the numbered tile `p` call for `a`: all covered
/// neighbours are safe once the flags around `p` match its count, and all are
/// bombs once the count left over equals their number.
pub open spec fn local_rule(b: Board, p: TilePos, a: Action) -> bool {
    &&& b.in_bounds(p)
    &&& covered_around(b, p).contains(a.pos)
    &&& match b.state(p) {
        TileState::UncoveredSafe(n) => {
            ||| (a.action_type == ActionType::Uncover && flagged_around(b, p) == n)
            ||| (a.action_type == ActionType::Flag && sat_sub(n as int, flagged_around(b, p) as int)
                == covered_around(b, p).len())
        },
        _ => false,
    }
}

/// The moves that the single-tile deduction makes on `b`.
pub open spec fn trivial_action(b: Board, a: Action) -> bool {
    if all_covered(b) {
        a == opening_move(b)
    } else if b.bombs_left() == 0 {
        a.action_type == ActionType::Uncover && b.in_bounds(a.pos) && b.state(a.pos)
            == TileState::Covered
    } else {
        exists|p: TilePos| #[trigger] local_rule(b, p, a)
    }
}

/// `p` comes before column `col`, row `row` in column-major order.
pub open spec fn visited(p: TilePos, col: int, row: int) -> bool {
    p.col < col || (p.col == col && p.row < row)
}

fn all_tiles_covered(board: &Board) -> (r: bool)
    ensures
        r == all_covered(*board),
{
    let states = board.tile_states();
    let mut i: usize = 0;
    while i < states.len()
        invariant
            states@ == board.tiles(),
            i <= states@.len(),
            forall|j: int| 0 <= j < i ==> states@[j] == TileState::Covered,
        decreases states@.len() - i,
    {
        if states[i] != TileState::Covered {
            return false;
        }
        i = i + 1;
    }
    true
}

/// Appends one action of kind `kind` for each tile of `tiles`.
pub(crate) fn push_actions(output: &mut Vec<Action>, tiles: &Vec<TilePos>, kind: ActionType)
    ensures
        forall|a: Action|
            final(output)@.contains(a) <==> (old(output)@.contains(a) || (tiles@.contains(a.pos)
                && a.action_type == kind)),
{
    let mut i: usize = 0;
    while i < tiles.len()
        invariant
            i <= tiles@.len(),
            forall|a: Action|
                output@.contains(a) <==> (old(output)@.contains(a) || (tiles@.take(i as int).contains(
                    a.pos,
                ) && a.action_type == kind)),
        decreases tiles@.len() - i,
    {
        let ghost before = output@;
        let act = Action { pos: tiles[i], action_type: kind };
        output.push(act);
        proof {
            assert forall|a: Action|
                output@.contains(a) <==> (old(output)@.contains(a) || (tiles@.take(i + 1).contains(
                    a.pos,
                ) && a.action_type == kind)) by {
                crate::seq_facts::lemma_push_contains(before, act, a);
                crate::seq_facts::lemma_take_step(tiles@, i as int, a.pos);
            }
        }
        i = i + 1;
    }
    assert(tiles@.take(tiles@.len() as int) == tiles@);
}

/// The moves that follow from single numbered tiles alone, each once; on an
/// untouched board the fixed opening move, and with no bombs left every
/// covered tile.
pub fn get_trivial_actions(board: &Board) -> (r: Vec<Action>)
    requires
        board.wf(),
    ensures
        forall|a: Action| r@.contains(a) <==> trivial_action(*board, a),
        r@.no_duplicates(),
        !all_covered(*board) && board.bombs_left() == 0 ==> forall|i: int, j: int|
            0 <= i < j < r@.len() ==> crate::board::tile_lt(#[trigger] r@[i].pos, #[trigger] r@[j].pos),
{
    let mut output: Vec<Action> = Vec::new();
    if all_tiles_covered(board) {
        let pos = TilePos { col: 2, row: board.height() / 2 };
        let v = vec![Action::uncover(pos)];
        proof {
            assert forall|a: Action| v@.contains(a) <==> trivial_action(*board, a) by {
                if v@.contains(a) {
                    let w = choose|w: int| 0 <= w < v@.len() && v@[w] == a;
                }
                if a == opening_move(*board) {
                    assert(v@[0] == a);
                }
            }
        }
        return v;
    } else if board.num_bombs_left() == 0 {
        let mut col: usize = 0;
        while col < board.width()
            invariant
                board.wf(),
                !all_covered(*board),
                board.bombs_left() == 0,
                col <= board.w(),
                forall|a: Action|
                    output@.contains(a) <==> (a.action_type == ActionType::Uncover && board.in_bounds(
                        a.pos,
                    ) && a.pos.col < col && board.state(a.pos) == TileState::Covered),
                forall|i: int, j: int|
                    0 <= i < j < output@.len() ==> crate::board::tile_lt(
                        #[trigger] output@[i].pos,
                        #[trigger] output@[j].pos,
                    ),
                forall|i: int| 0 <= i < output@.len() ==> (#[trigger] output@[i]).pos.col < col,
            decreases board.w() - col,
        {
            let mut row: usize = 0;
            while row < board.height()
                invariant
                    board.wf(),
                    col < board.w(),
                    row <= board.h(),
                    forall|a: Action|
                        output@.contains(a) <==> (a.action_type == ActionType::Uncover
                            && board.in_bounds(a.pos) && visited(a.pos, col as int, row as int)
                            && board.state(a.pos) == TileState::Covered),
                    forall|i: int, j: int|
                        0 <= i < j < output@.len() ==> crate::board::tile_lt(
                            #[trigger] output@[i].pos,
                            #[trigger] output@[j].pos,
                        ),
                    forall|i: int|
                        0 <= i < output@.len() ==> visited(
                            (#[trigger] output@[i]).pos,
                            col as int,
                            row as int,
                        ),
                decreases board.h() - row,
            {
                let pos = TilePos { col, row };
                let ghost before = output@;
                if board.tile_state(pos) == TileState::Covered {
                    output.push(Action::uncover(pos));
                }
                proof {
                    assert forall|a: Action|
                        output@.contains(a) <==> (a.action_type == ActionType::Uncover
                            && board.in_bounds(a.pos) && visited(a.pos, col as int, row + 1)
                            && board.state(a.pos) == TileState::Covered) by {
                        crate::seq_facts::lemma_push_contains(
                            before,
                            Action { pos, action_type: ActionType::Uncover },
                            a,
                        );
                    }
                    assert forall|i: int| 0 <= i < output@.len() implies visited(
                        (#[trigger] output@[i]).pos,
                        col as int,
                        row + 1,
                    ) by {
                        if i < before.len() {
                            assert(output@[i] == before[i]);
                        }
                    }
                    assert forall|i: int, j: int| 0 <= i < j < output@.len() implies crate::board::tile_lt(
                        #[trigger] output@[i].pos,
                        #[trigger] output@[j].pos,
                    ) by {
                        assert(output@[i] == before[i]);
                        if j < before.len() {
                            assert(output@[j] == before[j]);
                        }
                    }
                }
                row = row + 1;
            }
            proof {
                assert forall|i: int| 0 <= i < output@.len() implies (#[trigger] output@[i]).pos.col
                    < col + 1 by {
                    assert(visited(output@[i].pos, col as int, board.h() as int));
                }
            }
            col = col + 1;
        }
        proof {
            assert forall|a: Action| output@.contains(a) <==> trivial_action(*board, a) by {}
            assert forall|i: int, j: int|
                0 <= i < output@.len() && 0 <= j < output@.len() && i != j implies output@[i]
                != output@[j] by {
                if i < j {
                    assert(crate::board::tile_lt(output@[i].pos, output@[j].pos));
                } else {
                    assert(crate::board::tile_lt(output@[j].pos, output@[i].pos));
                }
            }
        }
        return output;
    }
    let mut col: usize = 0;
    while col < board.width()
        invariant
            board.wf(),
            !all_covered(*board),
            board.bombs_left() != 0,
            col <= board.w(),
            forall|a: Action|
                output@.contains(a) <==> exists|p: TilePos|
                    p.col < col && #[trigger] local_rule(*board, p, a),
        decreases board.w() - col,
    {
        let mut row: usize = 0;
        while row < board.height()
            invariant
                board.wf(),
                col < board.w(),
                row <= board.h(),
                forall|a: Action|
                    output@.contains(a) <==> exists|p: TilePos|
                        visited(p, col as int, row as int) && #[trigger] local_rule(*board, p, a),
            decreases board.h() - row,
        {
            let pos = TilePos { col, row };
            let ghost before = output@;
            if let TileState::UncoveredSafe(n) = board.tile_state(pos) {
                let num_bombs = num_bombs_around(board, pos);
                let num_covered = num_covered_around(board, pos);
                let covered = covered_neighbours(board, pos);
                if num_bombs == n {
                    push_actions(&mut output, &covered, ActionType::Uncover);
                }
                let ghost mid = output@;
                if n.saturating_sub(num_bombs) == num_covered {
                    push_actions(&mut output, &covered, ActionType::Flag);
                }
                proof {
                    assert forall|a: Action|
                        output@.contains(a) <==> (before.contains(a) || local_rule(*board, pos, a)) by {
                    }
                }
            } else {
                assert forall|a: Action| !local_rule(*board, pos, a) by {}
            }
            proof {
                assert forall|a: Action|
                    output@.contains(a) <==> exists|p: TilePos|
                        visited(p, col as int, row + 1) && #[trigger] local_rule(*board, p, a) by {
                    if output@.contains(a) {
                        if before.contains(a) {
                            let p = choose|p: TilePos|
                                visited(p, col as int, row as int) && #[trigger] local_rule(
                                    *board,
                                    p,
                                    a,
                                );
                            assert(visited(p, col as int, row + 1));
                        } else {
                            assert(local_rule(*board, pos, a));
                            assert(visited(pos, col as int, row + 1));
                        }
                    }
                    if exists|p: TilePos|
                        visited(p, col as int, row + 1) && #[trigger] local_rule(*board, p, a) {
                        let p = choose|p: TilePos|
                            visited(p, col as int, row + 1) && #[trigger] local_rule(*board, p, a);
                        if p != pos {
                            assert(visited(p, col as int, row as int));
                        }
                    }
                }
            }
            row = row + 1;
        }
        proof {
            assert forall|a: Action|
                output@.contains(a) <==> exists|p: TilePos|
                    p.col < col + 1 && #[trigger] local_rule(*board, p, a) by {
                if exists|p: TilePos| p.col < col + 1 && #[trigger] local_rule(*board, p, a) {
                    let p = choose|p: TilePos| p.col < col + 1 && #[trigger] local_rule(*board, p, a);
                    assert(visited(p, col as int, board.h() as int));
                }
                if output@.contains(a) {
                    let p = choose|p: TilePos|
                        visited(p, col as int, board.h() as int) && #[trigger] local_rule(
                            *board,
                            p,
                            a,
                        );
                    assert(p.col < col + 1);
                }
            }
        }
        col = col + 1;
    }
    proof {
        assert forall|a: Action| output@.contains(a) <==> trivial_action(*board, a) by {
            if exists|p: TilePos| #[trigger] local_rule(*board, p, a) {
                let p = choose|p: TilePos| #[trigger] local_rule(*board, p, a);
                assert(p.col < col);
            }
        }
    }
    deduplicate(output)
}

proof fn lemma_numbered_not_all_covered(b: Board, p: TilePos)
    requires
        b.wf(),
        b.in_bounds(p),
        b.state(p) is UncoveredSafe,
    ensures
        !all_covered(b),
{
    b.lemma_index_in_range(p);
}

pub proof fn lemma_covered_neighbour(b: Board, p: TilePos, q: TilePos)
    requires
        covered_around(b, p).contains(q),
    ensures
        b.in_bounds(q),
        b.state(q) == TileState::Covered,
{
    lemma_covered_in(b, b.neighbours_of(p));
    b.lemma_nbs_in_bounds(p, 9);
    let w = choose|w: int| 0 <= w < b.neighbours_of(p).len() && b.neighbours_of(p)[w] == q;
    assert(b.in_bounds(b.nbs_upto(p, 9)[w]));
}

/// When the flags around a numbered tile match its count, the single-tile
/// deduction uncovers every covered neighbour of that tile.
pub proof fn lemma_satisfied_tile_uncovers(b: Board, p: TilePos, q: TilePos)
    requires
        b.wf(),
        b.in_bounds(p),
        b.state(p) matches TileState::UncoveredSafe(n) && flagged_around(b, p) == n,
        covered_around(b, p).contains(q),
    ensures
        trivial_action(b, Action { pos: q, action_type: ActionType::Uncover }),
{
    lemma_numbered_not_all_covered(b, p);
    lemma_covered_neighbour(b, p, q);
    assert(local_rule(b, p, Action { pos: q, action_type: ActionType::Uncover }));
}

/// When a numbered tile's count less the flags around it equals the number of
/// its covered neighbours, the single-tile deduction flags every one of them.
/// This holds while some bomb is left unflagged: with none left, the deduction
/// uncovers every covered tile instead.
pub proof fn lemma_saturated_tile_flags(b: Board, p: TilePos, q: TilePos)
    requires
        b.wf(),
        b.bombs_left() != 0,
        b.in_bounds(p),
        b.state(p) matches TileState::UncoveredSafe(n) && n >= flagged_around(b, p) && n
            - flagged_around(b, p) == covered_around(b, p).len(),
        covered_around(b, p).contains(q),
    ensures
        trivial_action(b, Action { pos: q, action_type: ActionType::Flag }),
{
    lemma_numbered_not_all_covered(b, p);
    assert(local_rule(b, p, Action { pos: q, action_type: ActionType::Flag }));
}

/// The single-tile deduction depends on the board alone: a second pass over an
/// unchanged board yields no action that the first did not.
pub proof fn lemma_trivial_idempotent(b: Board, first: Seq<Action>, second: Seq<Action>)
    requires
        forall|a: Action| first.contains(a) <==> trivial_action(b, a),
        forall|a: Action| second.contains(a) <==> trivial_action(b, a),
    ensures
        forall|a: Action| second.contains(a) ==> first.contains(a),
{
}

/// The moves to make next: the single-tile deductions; failing those, the
/// deductions from combined constraints; failing those, one guess. Empty only
/// where no tile is covered or no placement of bombs agrees with the board.
/// A board where a number has more flags around it than its count is not
/// accepted.
pub fn get_all_actions(board: &Board) -> (r: Vec<Action>)
    requires
        board.wf(),
        flags_fit(*board),
    ensures
        (exists|a: Action| trivial_action(*board, a)) ==> forall|a: Action|
            r@.contains(a) <==> trivial_action(*board, a),
        forall|a: Action|
            r@.contains(a) ==> trivial_action(*board, a) || certain(*board, a) || (a.action_type
                == ActionType::Uncover && board.in_bounds(a.pos) && board.state(a.pos)
                == TileState::Covered),
        r@.no_duplicates(),
        r@.len() == 0 ==> (forall|q: TilePos|
            board.in_bounds(q) ==> board.state(q) != TileState::Covered)
            || crate::guesses::impossible_board(*board),
        !(exists|a: Action| trivial_action(*board, a)) ==> (forall|a: Action|
            r@.contains(a) ==> certain(*board, a)) || (r@.len() == 1 && r@[0].action_type
            == ActionType::Uncover && board.in_bounds(r@[0].pos) && board.state(r@[0].pos)
            == TileState::Covered),
{
    let mut output = get_trivial_actions(board);
    let ghost trivial_found = output@.len() > 0;
    let ghost initial = output@;
    proof {
        if trivial_found {
            assert(initial.contains(initial[0]));
            assert(trivial_action(*board, initial[0]));
        }
    }
    if output.len() == 0 {
        let mut more = get_non_trivial_actions(board);
        output.append(&mut more);
        proof {
            assert forall|a: Action| output@.contains(a) implies certain(*board, a) by {
                assert(more@.len() == 0 || output@ == more@);
            }
        }
    }
    let ghost guessed = false;
    if output.len() == 0 {
        if let Some(guess) = make_guess(board) {
            output.push(guess);
            proof {
                assert(output@[0] == guess);
                guessed = true;
            }
        }
    }
    proof {
        if !trivial_found && !guessed {
            assert(forall|a: Action| output@.contains(a) ==> certain(*board, a));
        }
    }
    let ghost before = output@;
    proof {
        if before.len() > 0 {
            assert(before.contains(before[0]));
        }
    }
    let r = deduplicate(output);
    proof {
        if before.len() > 0 {
            assert(r@.contains(before[0]));
        }
        if before.len() == 1 {
            assert(before.drop_last() =~= Seq::<Action>::empty());
            assert(first_occurrences(before.drop_last()) == Seq::<Action>::empty());
            assert(!Seq::<Action>::empty().contains(before.last()));
            assert(r@ == Seq::<Action>::empty().push(before.last()));
            assert(r@[0] == before[0]);
        }
        if !trivial_found && !guessed {
            assert forall|a: Action| r@.contains(a) implies certain(*board, a) by {
                assert(before.contains(a));
            }
        }
    }
    r
}

} // verus!
