use vstd::prelude::*;

use vstd::arithmetic::div_mod::lemma_fundamental_div_mod_converse;
use vstd::slice::slice_subrange;

use crate::geometry::Point;
use crate::geometry::Vector;

verus! {

/// One of the two stone colours.
#[derive(Debug, PartialEq, Eq, Structural, Clone, Copy)]
pub enum Player {
    Player1,
    Player2,
}

impl Player {
    /// The other player.
    pub open spec fn spec_switch(self) -> Player {
        match self {
            Player::Player1 => Player::Player2,
            Player::Player2 => Player::Player1,
        }
    }

    /// Hands back the other player.
    #[verifier::when_used_as_spec(spec_switch)]
    pub fn switch(self) -> (r: Self)
        ensures
            r == self.spec_switch(),
    {
        match self {
            Self::Player1 => Self::Player2,
            Self::Player2 => Self::Player1,
        }
    }
}

/// Contents of one board cell: empty, or a stone of one player.
#[derive(Debug, PartialEq, Eq, Structural, Clone, Copy)]
pub enum State {
    Empty,
    Player(Player),
}

/// A rectangular grid of cells in row-major order, plus its dimensions.
///
/// A board value is never changed in place: `action` builds a fresh board
/// and leaves its receiver exactly as it was.
#[derive(Debug, PartialEq, Clone)]
pub struct Board {
    /// Width: the number of columns.
    pub x: usize,
    /// Height: the number of rows.
    pub y: usize,
    /// The cells, row-major: `source[cy * x + cx]` is the cell at (cx, cy).
    pub source: Vec<State>,
}

impl Board {
    /// The grid contents as a sequence, row-major: index `cy * width + cx`.
    pub open spec fn cells(self) -> Seq<State> {
        self.source@
    }

    /// The board invariant: positive dimensions that fit in an i32, and
    /// exactly `width * height` cells.
    pub open spec fn wf(self) -> bool {
        &&& self.cells().len() == self.x * self.y
        &&& 0 < self.x
        &&& 0 < self.y
        &&& self.x <= i32::MAX
        &&& self.y <= i32::MAX
    }

    /// Whether a coordinate lies inside the grid.
    pub open spec fn on_board(self, cx: int, cy: int) -> bool {
        0 <= cx < self.x && 0 <= cy < self.y
    }

    /// Row-major flat index of a coordinate.
    pub open spec fn flat(self, cx: int, cy: int) -> int {
        cy * self.x + cx
    }

    /// The cell at an on-board coordinate.
    pub open spec fn cell(self, cx: int, cy: int) -> State {
        self.cells()[self.flat(cx, cy)]
    }

    /// What `state` returns: the cell, or `None` off the board.
    pub open spec fn spec_state(self, cx: int, cy: int) -> Option<State> {
        if self.on_board(cx, cy) {
            Some(self.cell(cx, cy))
        } else {
            None
        }
    }

    pub(crate) proof fn lemma_flat_in_range(self, cx: int, cy: int)
        requires
            self.wf(),
            self.on_board(cx, cy),
        ensures
            0 <= self.flat(cx, cy) < self.cells().len(),
    {
        assert(0 <= cy * self.x && cy * self.x + cx < self.y * self.x) by (nonlinear_arith)
            requires
                0 <= cx < self.x,
                0 <= cy < self.y;
        assert(self.y * self.x == self.x * self.y) by (nonlinear_arith);
    }

    /// On-board coordinates share a flat index only when they are equal.
    pub(crate) proof fn lemma_flat_injective(self, ax: int, ay: int, bx: int, cy: int)
        requires
            self.wf(),
            self.on_board(ax, ay),
            self.on_board(bx, cy),
        ensures
            self.flat(ax, ay) == self.flat(bx, cy) <==> (ax == bx && ay == cy),
    {
        if self.flat(ax, ay) == self.flat(bx, cy) {
            lemma_fundamental_div_mod_converse(self.flat(ax, ay), self.x as int, ay, ax);
            lemma_fundamental_div_mod_converse(self.flat(bx, cy), self.x as int, cy, bx);
        }
    }

    /// A flat index is the flat index of its own coordinate pair.
    pub(crate) proof fn lemma_flat_coords(self, i: int)
        requires
            self.wf(),
            0 <= i < self.cells().len(),
        ensures
            self.on_board(i % (self.x as int), i / (self.x as int)),
            self.flat(i % (self.x as int), i / (self.x as int)) == i,
    {
        let w = self.x as int;
        let q = i / w;
        let r = i % w;
        vstd::arithmetic::div_mod::lemma_fundamental_div_mod(i, w);
        vstd::arithmetic::div_mod::lemma_mod_bound(i, w);
        vstd::arithmetic::mul::lemma_mul_is_commutative(w, q);
        vstd::arithmetic::mul::lemma_mul_is_commutative(self.x as int, self.y as int);
        assert(q < self.y) by (nonlinear_arith)
            requires
                q * w + r == i,
                i < self.y * w,
                0 <= r,
                0 < w;
        assert(0 <= q) by (nonlinear_arith)
            requires
                q * w + r == i,
                0 <= i,
                0 <= r < w;
    }

    /// Upper bound on the number of steps before a walk from (qx, qy)
    /// along `v` leaves the board; it drives the ray-scan termination.
    pub open spec fn ray_rem(self, qx: int, qy: int, v: Vector) -> int {
        if v.dx() != 0 {
            if v.dx() > 0 {
                self.x - qx
            } else {
                qx + 1
            }
        } else {
            if v.dy() > 0 {
                self.y - qy
            } else {
                qy + 1
            }
        }
    }

    /// Walking from (qx, qy) along `v`, the cells form a possibly empty run
    /// of the opponent's stones closed off by one of `pl`'s own stones,
    /// with no gap and no board edge before it.
    pub open spec fn ends_in_own(self, pl: Player, qx: int, qy: int, v: Vector) -> bool
        decreases self.ray_rem(qx, qy, v),
    {
        if !self.on_board(qx, qy) {
            false
        } else {
            match self.cell(qx, qy) {
                State::Empty => false,
                State::Player(t) => t == pl || self.ends_in_own(pl, qx + v.dx(), qy + v.dy(), v),
            }
        }
    }

    /// Walking from (qx, qy) along `v`: (cx, cy) is one of the opponent
    /// stones crossed before `pl`'s own stone is reached.
    pub open spec fn flip_run(self, pl: Player, qx: int, qy: int, cx: int, cy: int, v: Vector) -> bool
        decreases self.ray_rem(qx, qy, v),
    {
        if !self.on_board(qx, qy) {
            false
        } else {
            match self.cell(qx, qy) {
                State::Empty => false,
                State::Player(t) => t != pl && ((qx == cx && qy == cy)
                    || self.flip_run(pl, qx + v.dx(), qy + v.dy(), cx, cy, v)),
            }
        }
    }

    /// The move (px, py) is legal for `pl` along `v`: the target cell is
    /// empty, the next cell along `v` holds an opponent stone, and the ray
    /// then runs over opponent stones to one of `pl`'s own.
    pub open spec fn spec_is_act_vector(self, pl: Player, px: int, py: int, v: Vector) -> bool {
        &&& self.spec_state(px, py) == Some(State::Empty)
        &&& self.spec_state(px + v.dx(), py + v.dy()) == Some(State::Player(pl.spec_switch()))
        &&& self.ends_in_own(pl, px + 2 * v.dx(), py + 2 * v.dy(), v)
    }

    /// The move (px, py) is legal for `pl`: some direction captures.
    pub open spec fn spec_is_act(self, pl: Player, px: int, py: int) -> bool {
        exists|v: Vector| self.spec_is_act_vector(pl, px, py, v)
    }

    /// (cx, cy) is flipped by `pl`'s move at (px, py) along `v`.
    pub open spec fn spec_flipped_vector(
        self,
        pl: Player,
        px: int,
        py: int,
        cx: int,
        cy: int,
        v: Vector,
    ) -> bool {
        &&& self.spec_is_act_vector(pl, px, py, v)
        &&& self.flip_run(pl, px + v.dx(), py + v.dy(), cx, cy, v)
    }

    /// (cx, cy) is flipped by `pl`'s move at (px, py) along some direction.
    pub open spec fn spec_flipped(self, pl: Player, px: int, py: int, cx: int, cy: int) -> bool {
        exists|v: Vector| self.spec_flipped_vector(pl, px, py, cx, cy, v)
    }

    /// Exact contents of the board that a successful `action` returns: the
    /// dimensions are kept, the target cell and every flipped cell hold the
    /// acting player's stone, and every other cell is untouched.
    pub open spec fn spec_action_result(self, nb: Board, pl: Player, px: int, py: int) -> bool {
        &&& nb.x == self.x
        &&& nb.y == self.y
        &&& nb.cells().len() == self.cells().len()
        &&& forall|cx: int, cy: int|
            self.on_board(cx, cy) ==> #[trigger] nb.cell(cx, cy) == (if (cx == px && cy == py)
                || self.spec_flipped(pl, px, py, cx, cy) {
                State::Player(pl)
            } else {
                self.cell(cx, cy)
            })
    }

    /// The canonical opening position on the 8-by-8 grid: Player1 on the
    /// two diagonal centre cells, Player2 on the two anti-diagonal ones.
    pub open spec fn initial_cell(cx: int, cy: int) -> State {
        if (cx == 3 && cy == 3) || (cx == 4 && cy == 4) {
            State::Player(Player::Player1)
        } else if (cx == 4 && cy == 3) || (cx == 3 && cy == 4) {
            State::Player(Player::Player2)
        } else {
            State::Empty
        }
    }

    /// The standard 8-by-8 board with the four centre stones placed.
    pub fn new() -> (r: Board)
        ensures
            r.wf(),
            r.x == 8,
            r.y == 8,
            forall|cx: int, cy: int|
                r.on_board(cx, cy) ==> #[trigger] r.cell(cx, cy) == Board::initial_cell(cx, cy),
    {
        let x: usize = 8;
        let y: usize = 8;
        let mut source: Vec<State> = Vec::with_capacity(x * y);
        let mut i: usize = 0;
        while i < 64
            invariant
                i <= 64,
                source@.len() == i,
                forall|k: int|
                    0 <= k < i ==> #[trigger] source@[k] == Board::initial_cell(k % 8, k / 8),
            decreases 64 - i,
        {
            if i == 27 || i == 36 {
                source.push(State::Player(Player::Player1));
            } else if i == 28 || i == 35 {
                source.push(State::Player(Player::Player2));
            } else {
                source.push(State::Empty);
            }
            i += 1;
        }
        let r = Board { x, y, source };
        proof {
            assert forall|cx: int, cy: int| r.on_board(cx, cy) implies #[trigger] r.cell(cx, cy)
                == Board::initial_cell(cx, cy) by {
                lemma_fundamental_div_mod_converse(cy * 8 + cx, 8, cy, cx);
            }
        }
        r
    }

    /// The grid as `height` rows of `width` cells each, top row first; a
    /// presentation view that leaves the board untouched.
    pub fn table(&self) -> (t: Vec<&[State]>)
        requires
            self.wf(),
        ensures
            t@.len() == self.y,
            forall|k: int|
                0 <= k < self.y ==> #[trigger] t@[k]@ == self.cells().subrange(
                    k * self.x,
                    k * self.x + self.x,
                ),
    {
        let mut table: Vec<&[State]> = Vec::with_capacity(self.y);
        let n = self.source.len();
        let mut i: usize = 0;
        while i < self.y
            invariant
                self.wf(),
                n == self.cells().len(),
                i <= self.y,
                table@.len() == i,
                forall|k: int|
                    0 <= k < i ==> #[trigger] table@[k]@ == self.cells().subrange(
                        k * self.x,
                        k * self.x + self.x,
                    ),
            decreases self.y - i,
        {
            proof {
                assert(i * self.x + self.x <= self.y * self.x) by (nonlinear_arith)
                    requires
                        0 <= i,
                        i < self.y,
                        0 < self.x;
                assert(self.y * self.x == self.x * self.y) by (nonlinear_arith);
                assert(0 <= i * self.x) by (nonlinear_arith)
                    requires
                        0 <= i,
                        0 < self.x;
                assert(i * self.x + self.x <= n);
            }
            let start = i * self.x;
            let end = start + self.x;
            table.push(slice_subrange(self.source.as_slice(), start, end));
            i += 1;
        }
        table
    }

    /// Flat index of an on-board point.
    fn index(&self, p: Point) -> (r: usize)
        requires
            self.wf(),
            self.on_board(p.x as int, p.y as int),
        ensures
            r == self.flat(p.x as int, p.y as int),
            r < self.cells().len(),
    {
        let n = self.source.len();
        proof {
            self.lemma_flat_in_range(p.x as int, p.y as int);
            assert(self.flat(p.x as int, p.y as int) < n);
        }
        p.y as usize * self.x + p.x as usize
    }

    fn is_on_board(&self, p: Point) -> (r: bool)
        requires
            self.wf(),
        ensures
            r == self.on_board(p.x as int, p.y as int),
    {
        p.x >= 0 && p.x < self.x as i32 && p.y >= 0 && p.y < self.y as i32
    }

    /// The cell at `p`, or `None` when `p` lies off the board.
    pub fn state(&self, p: Point) -> (r: Option<State>)
        requires
            self.wf(),
        ensures
            r == self.spec_state(p.x as int, p.y as int),
    {
        if !self.is_on_board(p) {
            return None;
        }
        Some(self.source[self.index(p)])
    }

    /// Follows a ray over opponent stones; reports whether it ends on one
    /// of `player`'s stones before leaving the board or hitting a gap.
    fn scan_to_own(&self, player: Player, q: Point, v: Vector) -> (r: bool)
        requires
            self.wf(),
        ensures
            r == self.ends_in_own(player, q.x as int, q.y as int, v),
        decreases self.ray_rem(q.x as int, q.y as int, v),
    {
        match self.state(q) {
            Some(State::Player(t)) => {
                if t == player {
                    true
                } else {
                    self.scan_to_own(player, q.move_point(v), v)
                }
            },
            _ => false,
        }
    }

    /// Whether placing `player`'s stone at `p` captures along `v`.
    pub fn is_act_vector(&self, player: Player, p: Point, v: Vector) -> (r: bool)
        requires
            self.wf(),
        ensures
            r == self.spec_is_act_vector(player, p.x as int, p.y as int, v),
    {
        match self.state(p) {
            Some(State::Empty) => {},
            _ => {
                return false;
            },
        }
        let q = p.move_point(v);
        match self.state(q) {
            Some(State::Player(t)) => {
                if t == player {
                    false
                } else {
                    self.scan_to_own(player, q.move_point(v), v)
                }
            },
            _ => false,
        }
    }

    /// Whether placing `player`'s stone at `p` is a legal move: at least
    /// one of the eight directions captures.
    pub fn is_act(&self, player: Player, p: Point) -> (r: bool)
        requires
            self.wf(),
        ensures
            r == self.spec_is_act(player, p.x as int, p.y as int),
    {
        let r = self.is_act_vector(player, p, Vector::TopLeft)
            || self.is_act_vector(player, p, Vector::Top)
            || self.is_act_vector(player, p, Vector::TopRight)
            || self.is_act_vector(player, p, Vector::Right)
            || self.is_act_vector(player, p, Vector::BottomRight)
            || self.is_act_vector(player, p, Vector::Bottom)
            || self.is_act_vector(player, p, Vector::BottomLeft)
            || self.is_act_vector(player, p, Vector::Left);
        proof {
            if !r {
                assert forall|v: Vector| !self.spec_is_act_vector(
                    player,
                    p.x as int,
                    p.y as int,
                    v,
                ) by {
                    assert(v == Vector::TopLeft || v == Vector::Top || v == Vector::TopRight
                        || v == Vector::Right || v == Vector::BottomRight || v == Vector::Bottom
                        || v == Vector::BottomLeft || v == Vector::Left);
                }
            }
        }
        r
    }

    /// The pushed prefix of the legal-move enumeration: `s` holds exactly
    /// the legal moves whose flat index lies below `bound`, in strictly
    /// increasing (row-major) order.
    pub open spec fn actionable_prefix_ok(self, pl: Player, s: Seq<Point>, bound: int) -> bool {
        &&& forall|i: int| #![trigger s[i]]
            0 <= i < s.len() ==> self.on_board(s[i].x as int, s[i].y as int)
                && self.spec_is_act(pl, s[i].x as int, s[i].y as int)
                && self.flat(s[i].x as int, s[i].y as int) < bound
        &&& forall|cx: int, cy: int| #![trigger self.spec_is_act(pl, cx, cy)]
            self.on_board(cx, cy) && self.spec_is_act(pl, cx, cy) && self.flat(cx, cy) < bound
                ==> exists|i: int| #![trigger s[i]]
                0 <= i < s.len() && s[i].x == cx && s[i].y == cy
        &&& forall|i: int, j: int| #![trigger s[i], s[j]]
            0 <= i < j < s.len() ==> self.flat(s[i].x as int, s[i].y as int) < self.flat(
                s[j].x as int,
                s[j].y as int,
            )
    }

    /// Every legal move for `player`, in row-major scan order: rows from
    /// the top, columns from the left within each row.
    pub fn actionable(&self, player: Player) -> (r: Vec<Point>)
        requires
            self.wf(),
        ensures
            self.actionable_prefix_ok(player, r@, self.flat(0, self.y as int)),
    {
        let mut actionable: Vec<Point> = Vec::new();
        let mut yy: usize = 0;
        while yy < self.y
            invariant
                self.wf(),
                yy <= self.y,
                self.actionable_prefix_ok(player, actionable@, self.flat(0, yy as int)),
            decreases self.y - yy,
        {
            let mut xx: usize = 0;
            while xx < self.x
                invariant
                    self.wf(),
                    yy < self.y,
                    xx <= self.x,
                    self.actionable_prefix_ok(player, actionable@, self.flat(xx as int, yy as int)),
                decreases self.x - xx,
            {
                let p = Point::new(xx as i32, yy as i32);
                let ghost before = actionable@;
                let ghost bound = self.flat(xx as int, yy as int);
                if self.is_act(player, p) {
                    actionable.push(p);
                }
                xx += 1;
                proof {
                    assert forall|cx: int, cy: int|
                        self.on_board(cx, cy) && #[trigger] self.spec_is_act(player, cx, cy)
                            && self.flat(cx, cy) < bound + 1 implies exists|i: int|
                        #![trigger actionable@[i]]
                        0 <= i < actionable@.len() && actionable@[i].x == cx && actionable@[i].y
                            == cy by {
                        if self.flat(cx, cy) == bound {
                            self.lemma_flat_injective(cx, cy, xx as int - 1, yy as int);
                            assert(actionable@[actionable@.len() - 1] == p);
                        } else {
                            let i = choose|i: int|
                                0 <= i < before.len() && before[i].x == cx && before[i].y == cy;
                            assert(actionable@[i] == before[i]);
                        }
                    }
                }
            }
            yy += 1;
            proof {
                assert(self.flat(self.x as int, (yy - 1) as int) == self.flat(0, yy as int))
                    by (nonlinear_arith)
                    requires
                        0 < yy <= self.y;
            }
        }
        actionable
    }

    /// Writes `player`'s stone over the run of opponent stones that starts
    /// at `q` and ends at `player`'s own stone, into the buffer `buf`.
    fn flip_run_write(&self, buf: &mut Vec<State>, player: Player, q: Point, v: Vector)
        requires
            self.wf(),
            old(buf)@.len() == self.cells().len(),
            self.ends_in_own(player, q.x as int, q.y as int, v),
        ensures
            final(buf)@.len() == old(buf)@.len(),
            forall|cx: int, cy: int|
                self.on_board(cx, cy) ==> #[trigger] final(buf)@[self.flat(cx, cy)] == (if self.flip_run(
                    player,
                    q.x as int,
                    q.y as int,
                    cx,
                    cy,
                    v,
                ) {
                    State::Player(player)
                } else {
                    old(buf)@[self.flat(cx, cy)]
                }),
        decreases self.ray_rem(q.x as int, q.y as int, v),
    {
        match self.state(q) {
            Some(State::Player(t)) => {
                if t != player {
                    let i = self.index(q);
                    let ghost mid = buf@.update(i as int, State::Player(player));
                    buf.set(i, State::Player(player));
                    self.flip_run_write(buf, player, q.move_point(v), v);
                    proof {
                        assert forall|cx: int, cy: int| self.on_board(cx, cy) implies #[trigger] buf@[self.flat(cx, cy)]
                            == (if self.flip_run(player, q.x as int, q.y as int, cx, cy, v) {
                            State::Player(player)
                        } else {
                            old(buf)@[self.flat(cx, cy)]
                        }) by {
                            if cx == q.x as int && cy == q.y as int {
                                assert(self.flip_run(player, q.x as int, q.y as int, cx, cy, v));
                            } else {
                                self.lemma_flat_in_range(cx, cy);
                                self.lemma_flat_injective(cx, cy, q.x as int, q.y as int);
                                assert(mid[self.flat(cx, cy)] == old(buf)@[self.flat(cx, cy)]);
                            }
                        }
                    }
                }
            },
            _ => {
                proof {
                    assert(false);
                }
            },
        }
    }

    /// Applies `player`'s move at `p`: fails exactly when the move is not
    /// legal; on success hands back the board after the move — the target
    /// and every flipped cell hold `player`'s stone, nothing else changes,
    /// and the receiver is left as it was.
    pub fn action(&self, player: Player, p: Point) -> (r: Result<Board, &'static str>)
        requires
            self.wf(),
        ensures
            r is Ok <==> self.spec_is_act(player, p.x as int, p.y as int),
            r matches Ok(nb) ==> nb.wf() && self.spec_action_result(
                nb,
                player,
                p.x as int,
                p.y as int,
            ),
    {
        let is_act = self.is_act(player, p);
        if !is_act {
            return Err("failed action");
        }
        proof {
            let v0 = choose|v: Vector|
                self.spec_is_act_vector(player, p.x as int, p.y as int, v);
            assert(self.spec_state(p.x as int, p.y as int) == Some(State::Empty));
        }

        let mut source: Vec<State> = Vec::with_capacity(self.source.len());
        let mut i: usize = 0;
        while i < self.source.len()
            invariant
                self.wf(),
                i <= self.cells().len(),
                source@.len() == i,
                forall|k: int| 0 <= k < i ==> #[trigger] source@[k] == self.cells()[k],
            decreases self.cells().len() - i,
        {
            source.push(self.source[i]);
            i += 1;
        }

        proof {
            assert forall|cx: int, cy: int| self.on_board(cx, cy) implies #[trigger] source@[self.flat(cx, cy)]
                == self.cell(cx, cy) by {
                self.lemma_flat_in_range(cx, cy);
            }
        }

        let vals = Vector::values();
        let mut k: usize = 0;
        while k < 8
            invariant
                self.wf(),
                self.on_board(p.x as int, p.y as int),
                self.cell(p.x as int, p.y as int) == State::Empty,
                vals@ =~= seq![
                    Vector::TopLeft,
                    Vector::Top,
                    Vector::TopRight,
                    Vector::Right,
                    Vector::BottomRight,
                    Vector::Bottom,
                    Vector::BottomLeft,
                    Vector::Left,
                ],
                k <= 8,
                source@.len() == self.cells().len(),
                forall|cx: int, cy: int|
                    self.on_board(cx, cy) ==> #[trigger] source@[self.flat(cx, cy)] == (if (
                    exists|j: int|
                        0 <= j < k && self.spec_flipped_vector(
                            player,
                            p.x as int,
                            p.y as int,
                            cx,
                            cy,
                            vals@[j],
                        )) {
                        State::Player(player)
                    } else {
                        self.cell(cx, cy)
                    }),
            decreases 8 - k,
        {
            let v = vals[k];
            let ghost before = source@;
            let acts = self.is_act_vector(player, p, v);
            if acts {
                let q = p.move_point(v);
                self.flip_run_write(&mut source, player, q, v);
            }
            proof {
                let px = p.x as int;
                let py = p.y as int;
                assert forall|cx: int, cy: int| self.on_board(cx, cy) implies #[trigger] source@[self.flat(cx, cy)]
                    == (if (exists|j: int|
                    0 <= j < k + 1 && self.spec_flipped_vector(player, px, py, cx, cy, vals@[j])) {
                    State::Player(player)
                } else {
                    self.cell(cx, cy)
                }) by {
                    if acts && self.flip_run(player, px + v.dx(), py + v.dy(), cx, cy, v) {
                        assert(self.spec_flipped_vector(player, px, py, cx, cy, vals@[k as int]));
                    } else {
                        assert(source@[self.flat(cx, cy)] == before[self.flat(cx, cy)]);
                        assert(!self.spec_flipped_vector(player, px, py, cx, cy, vals@[k as int]));
                        if exists|j: int|
                            0 <= j < k + 1 && self.spec_flipped_vector(
                                player,
                                px,
                                py,
                                cx,
                                cy,
                                vals@[j],
                            ) {
                            let j = choose|j: int|
                                0 <= j < k + 1 && self.spec_flipped_vector(
                                    player,
                                    px,
                                    py,
                                    cx,
                                    cy,
                                    vals@[j],
                                );
                            assert(0 <= j < k && self.spec_flipped_vector(
                                player,
                                px,
                                py,
                                cx,
                                cy,
                                vals@[j],
                            ));
                        }
                    }
                }
            }
            k += 1;
        }

        proof {
            let px = p.x as int;
            let py = p.y as int;
            assert forall|cx: int, cy: int| self.on_board(cx, cy) implies #[trigger] source@[self.flat(cx, cy)]
                == (if self.spec_flipped(player, px, py, cx, cy) {
                State::Player(player)
            } else {
                self.cell(cx, cy)
            }) by {
                if self.spec_flipped(player, px, py, cx, cy) {
                    let v = choose|v: Vector|
                        self.spec_flipped_vector(player, px, py, cx, cy, v);
                    let j: int = match v {
                        Vector::TopLeft => 0,
                        Vector::Top => 1,
                        Vector::TopRight => 2,
                        Vector::Right => 3,
                        Vector::BottomRight => 4,
                        Vector::Bottom => 5,
                        Vector::BottomLeft => 6,
                        Vector::Left => 7,
                    };
                    assert(vals@[j] == v);
                    assert(0 <= j < 8 && self.spec_flipped_vector(player, px, py, cx, cy, vals@[j]));
                } else {
                    assert forall|j: int| 0 <= j < 8 implies !self.spec_flipped_vector(
                        player,
                        px,
                        py,
                        cx,
                        cy,
                        vals@[j],
                    ) by {
                        if self.spec_flipped_vector(player, px, py, cx, cy, vals@[j]) {
                            assert(self.spec_flipped(player, px, py, cx, cy));
                        }
                    }
                }
            }
        }

        let ti = self.index(p);
        let ghost settled = source@;
        source.set(ti, State::Player(player));
        let nb = Board { x: self.x, y: self.y, source };
        proof {
            let px = p.x as int;
            let py = p.y as int;
            assert forall|cx: int, cy: int| self.on_board(cx, cy) implies #[trigger] nb.cell(cx, cy)
                == (if (cx == px && cy == py) || self.spec_flipped(player, px, py, cx, cy) {
                State::Player(player)
            } else {
                self.cell(cx, cy)
            }) by {
                self.lemma_flat_in_range(cx, cy);
                if cx == px && cy == py {
                    assert(nb.cells()[self.flat(cx, cy)] == State::Player(player));
                } else {
                    self.lemma_flat_injective(cx, cy, px, py);
                    assert(nb.cells()[self.flat(cx, cy)] == settled[self.flat(cx, cy)]);
                }
            }
        }
        Ok(nb)
    }
}

} // verus!
