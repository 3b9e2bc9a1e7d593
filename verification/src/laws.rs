use vstd::prelude::*;

use vstd::arithmetic::div_mod::lemma_fundamental_div_mod_converse;

use crate::board::Board;
use crate::board::Player;
use crate::board::State;
use crate::geometry::Point;
use crate::geometry::Vector;

verus! {

/// Number of cells holding `st` among the first `n` cells of `s`.
pub open spec fn count_upto(s: Seq<State>, st: State, n: int) -> int
    decreases n,
{
    if n <= 0 {
        0
    } else {
        count_upto(s, st, n - 1) + (if s[n - 1] == st {
            1int
        } else {
            0int
        })
    }
}

/// Number of cells holding `st` on the whole board.
pub open spec fn count_stones(b: Board, st: State) -> int {
    count_upto(b.cells(), st, b.cells().len() as int)
}

/// Number of cells among the first `n` flat indices that `pl`'s move at
/// (px, py) flips.
pub open spec fn flips_upto(b: Board, pl: Player, px: int, py: int, n: int) -> int
    decreases n,
{
    if n <= 0 {
        0
    } else {
        flips_upto(b, pl, px, py, n - 1) + (if b.spec_flipped(
            pl,
            px,
            py,
            (n - 1) % (b.x as int),
            (n - 1) / (b.x as int),
        ) {
            1int
        } else {
            0int
        })
    }
}

/// Number of cells that `pl`'s move at (px, py) flips.
pub open spec fn flip_count(b: Board, pl: Player, px: int, py: int) -> int {
    flips_upto(b, pl, px, py, b.cells().len() as int)
}

/// A legal move targets an empty cell on the board.
pub proof fn lemma_is_act_on_board_empty(b: Board, pl: Player, px: int, py: int)
    requires
        b.spec_is_act(pl, px, py),
    ensures
        b.on_board(px, py),
        b.cell(px, py) == State::Empty,
{
    let v = choose|v: Vector| b.spec_is_act_vector(pl, px, py, v);
    assert(b.spec_state(px, py) == Some(State::Empty));
}

/// Every cell on a flip run holds a stone of `pl`'s opponent.
proof fn lemma_flip_run_hits_opponent(
    b: Board,
    pl: Player,
    qx: int,
    qy: int,
    cx: int,
    cy: int,
    v: Vector,
)
    requires
        b.flip_run(pl, qx, qy, cx, cy, v),
    ensures
        b.on_board(cx, cy),
        b.cell(cx, cy) == State::Player(pl.spec_switch()),
    decreases b.ray_rem(qx, qy, v),
{
    if !(qx == cx && qy == cy) {
        lemma_flip_run_hits_opponent(b, pl, qx + v.dx(), qy + v.dy(), cx, cy, v);
    }
}

/// Every flipped cell holds a stone of `pl`'s opponent.
proof fn lemma_flipped_is_opponent(b: Board, pl: Player, px: int, py: int, cx: int, cy: int)
    requires
        b.spec_flipped(pl, px, py, cx, cy),
    ensures
        b.on_board(cx, cy),
        b.cell(cx, cy) == State::Player(pl.spec_switch()),
{
    let v = choose|v: Vector| b.spec_flipped_vector(pl, px, py, cx, cy, v);
    lemma_flip_run_hits_opponent(b, pl, px + v.dx(), py + v.dy(), cx, cy, v);
}

proof fn lemma_flips_upto_nonneg(b: Board, pl: Player, px: int, py: int, n: int)
    ensures
        flips_upto(b, pl, px, py, n) >= 0,
    decreases n,
{
    if n > 0 {
        lemma_flips_upto_nonneg(b, pl, px, py, n - 1);
    }
}

proof fn lemma_flips_upto_at_least_one(b: Board, pl: Player, px: int, py: int, i: int, n: int)
    requires
        0 <= i < n,
        b.spec_flipped(pl, px, py, i % (b.x as int), i / (b.x as int)),
    ensures
        flips_upto(b, pl, px, py, n) >= 1,
    decreases n,
{
    lemma_flips_upto_nonneg(b, pl, px, py, n - 1);
    if i < n - 1 {
        lemma_flips_upto_at_least_one(b, pl, px, py, i, n - 1);
    }
}

/// How a successful move shifts the three per-cell counts, index by index.
proof fn lemma_counts_upto(b: Board, nb: Board, pl: Player, px: int, py: int, n: int)
    requires
        b.wf(),
        b.spec_is_act(pl, px, py),
        b.spec_action_result(nb, pl, px, py),
        0 <= n <= b.cells().len(),
    ensures
        count_upto(nb.cells(), State::Player(pl), n) == count_upto(b.cells(), State::Player(pl), n)
            + (if b.flat(px, py) < n {
            1int
        } else {
            0int
        }) + flips_upto(b, pl, px, py, n),
        count_upto(nb.cells(), State::Empty, n) == count_upto(b.cells(), State::Empty, n) - (
        if b.flat(px, py) < n {
            1int
        } else {
            0int
        }),
        count_upto(nb.cells(), State::Player(pl.spec_switch()), n) == count_upto(
            b.cells(),
            State::Player(pl.spec_switch()),
            n,
        ) - flips_upto(b, pl, px, py, n),
    decreases n,
{
    lemma_is_act_on_board_empty(b, pl, px, py);
    if n > 0 {
        lemma_counts_upto(b, nb, pl, px, py, n - 1);
        let i = n - 1;
        let w = b.x as int;
        b.lemma_flat_coords(i);
        let cx = i % w;
        let cy = i / w;
        assert(nb.cell(cx, cy) == (if (cx == px && cy == py) || b.spec_flipped(
            pl,
            px,
            py,
            cx,
            cy,
        ) {
            State::Player(pl)
        } else {
            b.cell(cx, cy)
        }));
        b.lemma_flat_injective(cx, cy, px, py);
        assert(pl.spec_switch() != pl);
        if cx == px && cy == py {
            if b.spec_flipped(pl, px, py, cx, cy) {
                lemma_flipped_is_opponent(b, pl, px, py, cx, cy);
            }
            assert(nb.cells()[i] == State::Player(pl));
            assert(b.cells()[i] == State::Empty);
        } else if b.spec_flipped(pl, px, py, cx, cy) {
            lemma_flipped_is_opponent(b, pl, px, py, cx, cy);
            assert(nb.cells()[i] == State::Player(pl));
            assert(b.cells()[i] == State::Player(pl.spec_switch()));
        } else {
            assert(nb.cells()[i] == b.cells()[i]);
        }
    }
}

/// A coordinate appears in an enumeration of legal moves exactly when the
/// move there is legal — which, by `action`'s contract, is also exactly
/// when applying the move succeeds.
pub proof fn lemma_actionable_exactly_legal(
    b: Board,
    pl: Player,
    s: Seq<Point>,
    px: int,
    py: int,
)
    requires
        b.wf(),
        b.actionable_prefix_ok(pl, s, b.flat(0, b.y as int)),
        b.on_board(px, py),
    ensures
        b.spec_is_act(pl, px, py) <==> exists|i: int|
            0 <= i < s.len() && s[i].x == px && s[i].y == py,
{
    if b.spec_is_act(pl, px, py) {
        b.lemma_flat_in_range(px, py);
        assert(b.x * b.y == b.flat(0, b.y as int)) by (nonlinear_arith);
    }
    if exists|i: int| 0 <= i < s.len() && s[i].x == px && s[i].y == py {
        let i = choose|i: int| 0 <= i < s.len() && s[i].x == px && s[i].y == py;
        assert(b.spec_is_act(pl, s[i].x as int, s[i].y as int));
    }
}

/// Switching the player twice comes back to the same player, and one
/// switch always changes the player.
pub proof fn lemma_switch_involutive(pl: Player)
    ensures
        pl.spec_switch().spec_switch() == pl,
        pl.spec_switch() != pl,
{
}

/// A move aimed at an occupied cell is illegal, whatever direction is
/// scanned.
pub proof fn lemma_occupied_never_acts(b: Board, pl: Player, px: int, py: int)
    requires
        b.on_board(px, py),
        b.cell(px, py) is Player,
    ensures
        !b.spec_is_act(pl, px, py),
{
    assert forall|v: Vector| !b.spec_is_act_vector(pl, px, py, v) by {
        assert(b.spec_state(px, py) == Some(b.cell(px, py)));
    }
}

/// A legal move strictly grows the acting player's stones: by one for the
/// placed stone plus one for each flipped cell, of which there is at least
/// one; it fills exactly one empty cell; and it costs the opponent exactly
/// the flipped stones.
pub proof fn lemma_action_counts(b: Board, nb: Board, pl: Player, px: int, py: int)
    requires
        b.wf(),
        b.spec_is_act(pl, px, py),
        b.spec_action_result(nb, pl, px, py),
    ensures
        count_stones(nb, State::Player(pl)) == count_stones(b, State::Player(pl)) + 1 + flip_count(
            b,
            pl,
            px,
            py,
        ),
        flip_count(b, pl, px, py) >= 1,
        count_stones(nb, State::Empty) == count_stones(b, State::Empty) - 1,
        count_stones(nb, State::Player(pl.spec_switch())) == count_stones(
            b,
            State::Player(pl.spec_switch()),
        ) - flip_count(b, pl, px, py),
{
    lemma_is_act_on_board_empty(b, pl, px, py);
    let len = b.cells().len() as int;
    lemma_counts_upto(b, nb, pl, px, py, len);
    b.lemma_flat_in_range(px, py);

    let v = choose|v: Vector| b.spec_is_act_vector(pl, px, py, v);
    let cx = px + v.dx();
    let cy = py + v.dy();
    assert(b.spec_state(cx, cy) == Some(State::Player(pl.spec_switch())));
    assert(pl.spec_switch() != pl);
    assert(b.flip_run(pl, cx, cy, cx, cy, v));
    assert(b.spec_flipped_vector(pl, px, py, cx, cy, v));
    assert(b.spec_flipped(pl, px, py, cx, cy));
    b.lemma_flat_in_range(cx, cy);
    let i = b.flat(cx, cy);
    lemma_fundamental_div_mod_converse(i, b.x as int, cy, cx);
    lemma_flips_upto_at_least_one(b, pl, px, py, i, len);
}

} // verus!
