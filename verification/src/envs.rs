//! Hidden-rule demo environments standing in for ARC-AGI-3 games.
//!
//! Colour legend (environment-internal truth, not told to agents):
//! 0 floor, 1 player, 3 goal (win on entry), 4 cart, 5 wall, 6 dock,
//! 7 mystery cell (ToggleMaze: secretly passable).

use vstd::prelude::*;

use crate::executor::{step_of, steps_of, EnvEvent, Environment, Observation};
use crate::timeline::Record;
use crate::grid::{
    action_delta, board, copy_grid, first_at, has_color, locate, moved, moved_spec, on_board,
    player_of, set_cell, set_cell_spec, Grid,
};
use crate::model::{plain, winning, Outcome};
use crate::text::str_eq;

verus! {

broadcast use crate::grid::group_board;

pub const ACTIONS: [&'static str; 4] = ["up", "down", "left", "right"];

/// The cell offset an action moves the player by; unknown actions stand still.
pub fn delta(action: &str) -> (r: (i32, i32))
    ensures
        (r.0 as int, r.1 as int) == action_delta(action@),
{
    if str_eq(action, "up") {
        (0, -1)
    } else if str_eq(action, "down") {
        (0, 1)
    } else if str_eq(action, "left") {
        (-1, 0)
    } else if str_eq(action, "right") {
        (1, 0)
    } else {
        (0, 0)
    }
}

/// The cells of colour `c` in row `y`, among its first `n` columns, in order.
pub open spec fn row_positions(row: Seq<u8>, y: int, c: u8, n: int) -> Seq<(usize, usize)>
    decreases n,
{
    if n <= 0 {
        Seq::empty()
    } else if row[n - 1] == c {
        row_positions(row, y, c, n - 1).push(((n - 1) as usize, y as usize))
    } else {
        row_positions(row, y, c, n - 1)
    }
}

/// The cells of colour `c` among the first `m` rows, in row-major order.
pub open spec fn positions(b: Seq<Seq<u8>>, c: u8, m: int) -> Seq<(usize, usize)>
    decreases m,
{
    if m <= 0 {
        Seq::empty()
    } else {
        positions(b, c, m - 1) + row_positions(b[m - 1], m - 1, c, b[m - 1].len() as int)
    }
}

/// Every cell `(x, y)` of colour `color`, in row-major order.
pub fn find_color(grid: &Grid, color: u8) -> (out: Vec<(usize, usize)>)
    ensures
        out@ == positions(board(grid), color, board(grid).len() as int),
{
    let ghost b = board(grid);
    let mut out: Vec<(usize, usize)> = Vec::new();
    let mut y: usize = 0;
    while y < grid.len()
        invariant
            b == board(grid),
            y <= grid.len(),
            out@ == positions(b, color, y as int),
        decreases grid.len() - y,
    {
        let row = &grid[y];
        let ghost start = out@;
        let mut x: usize = 0;
        while x < row.len()
            invariant
                b == board(grid),
                y < grid.len(),
                row@ == b[y as int],
                x <= row.len(),
                out@ == start + row_positions(b[y as int], y as int, color, x as int),
            decreases row.len() - x,
        {
            if row[x] == color {
                out.push((x, y));
            }
            x = x + 1;
            assert(out@ =~= start + row_positions(b[y as int], y as int, color, x as int));
        }
        y = y + 1;
    }
    out
}

/// The board is a rectangle of at least 3 by 3 cells whose border is wall.
pub open spec fn framed(b: Seq<Seq<u8>>) -> bool {
    &&& b.len() >= 3
    &&& b[0].len() >= 3
    &&& forall|y: int| 0 <= y < b.len() ==> #[trigger] b[y].len() == b[0].len()
    &&& forall|y: int, x: int|
        0 <= y < b.len() && 0 <= x < b[0].len() && (y == 0 || y == b.len() - 1 || x == 0 || x
            == b[0].len() - 1) ==> #[trigger] b[y][x] == 5
}

/// A framed board with a player on it.
pub open spec fn walled(b: Seq<Seq<u8>>) -> bool {
    framed(b) && has_color(b, 1)
}

proof fn lemma_framed_set(b: Seq<Seq<u8>>, x: int, y: int, v: u8)
    requires
        framed(b),
        on_board(b, x, y),
        b[y][x] != 5 || (1 <= x < b[0].len() - 1 && 1 <= y < b.len() - 1),
        v != 5,
    ensures
        framed(set_cell_spec(b, x, y, v)),
{
    let b2 = set_cell_spec(b, x, y, v);
    assert forall|yy: int| 0 <= yy < b2.len() implies #[trigger] b2[yy].len() == b2[0].len() by {
        assert(b[yy].len() == b[0].len());
    }
}

/// The player's cell and the cell it tries to enter, on a walled board.
fn target_of(grid: &Grid, action: &str) -> (r: (usize, usize, usize, usize))
    requires
        walled(board(grid)),
    ensures
        player_of(board(grid)) == Some((r.0 as int, r.1 as int)),
        first_at(board(grid), 1, r.0 as int, r.1 as int),
        (r.2 as int, r.3 as int) == (r.0 + action_delta(action@).0, r.1 + action_delta(action@).1),
        on_board(board(grid), r.0 as int, r.1 as int),
        on_board(board(grid), r.2 as int, r.3 as int),
        1 <= r.0 < board(grid)[0].len() - 1,
        1 <= r.1 < board(grid).len() - 1,
{
    let ghost b = board(grid);
    proof {
        let (yy, xx) = choose|y: int, x: int| 0 <= y < b.len() && 0 <= x < b[y].len() && b[y][x] == 1;
        crate::grid::lemma_first_exists(b, 1, xx, yy);
    }
    let (px, py) = match locate(grid, 1) {
        Some(p) => p,
        None => {
            assert(false);
            (0, 0)
        },
    };
    proof {
        crate::grid::lemma_first_of_some(b, 1);
        assert(b[py as int].len() == b[0].len());
        assert(b[py as int][px as int] == 1);
        if px == 0 || py == 0 || py as int == b.len() - 1 || px as int == b[0].len() - 1 {
            assert(b[py as int][px as int] == 5);
        }
    }
    let w = grid[0].len();
    let h = grid.len();
    assert(w == b[0].len() && h == b.len());
    let (dx, dy) = delta(action);
    assert(-1 <= dx <= 1 && -1 <= dy <= 1);
    let txi = px as i128 + dx as i128;
    let tyi = py as i128 + dy as i128;
    let tx = txi as usize;
    let ty = tyi as usize;
    proof {
        assert(b[ty as int].len() == b[0].len());
    }
    (px, py, tx, ty)
}

/// The maze's hidden rule: floor and the mystery colour are walked onto, the
/// goal is walked onto and wins, anything else blocks.
pub open spec fn toggle_rule(b: Seq<Seq<u8>>, a: Seq<char>) -> Outcome {
    match player_of(b) {
        None => plain(b),
        Some(pos) => {
            let (px, py) = pos;
            let (dx, dy) = action_delta(a);
            let tx = px + dx;
            let ty = py + dy;
            if !on_board(b, tx, ty) {
                plain(b)
            } else if b[ty][tx] == 0 || b[ty][tx] == 7 {
                plain(moved_spec(b, px, py, tx, ty))
            } else if b[ty][tx] == 3 {
                winning(moved_spec(b, px, py, tx, ty))
            } else {
                plain(b)
            }
        },
    }
}

/// The board an event leaves the environment on.
pub open spec fn event_board(e: EnvEvent) -> Seq<Seq<u8>> {
    match e {
        EnvEvent::Reset(o) => o.grid,
        EnvEvent::Step(_, o) => o.grid,
    }
}

/// The board after the events of `trace`, starting from `start`.
pub open spec fn board_after(trace: Seq<EnvEvent>, start: Seq<Seq<u8>>) -> Seq<Seq<u8>> {
    if trace.len() == 0 {
        start
    } else {
        event_board(trace.last())
    }
}

/// The hidden rule of the cart game when `cart`, else of the maze.
pub open spec fn env_rule(cart: bool, b: Seq<Seq<u8>>, a: Seq<char>) -> Outcome {
    if cart {
        cart_rule(b, a)
    } else {
        toggle_rule(b, a)
    }
}

/// Every event of `trace` follows the hidden rule: a reset returns the
/// starting board `start`, and a step returns the rule applied to the board
/// before it (`start` before the first event).
pub open spec fn follows_rule(trace: Seq<EnvEvent>, start: Seq<Seq<u8>>, cart: bool) -> bool {
    forall|k: int|
        0 <= k < trace.len() ==> match #[trigger] trace[k] {
            EnvEvent::Reset(o) => o == plain(start),
            EnvEvent::Step(a, o) => o == env_rule(cart, board_after(trace.take(k), start), a),
        }
}

proof fn lemma_follows_push(trace: Seq<EnvEvent>, start: Seq<Seq<u8>>, cart: bool, e: EnvEvent)
    requires
        follows_rule(trace, start, cart),
        match e {
            EnvEvent::Reset(o) => o == plain(start),
            EnvEvent::Step(a, o) => o == env_rule(cart, board_after(trace, start), a),
        },
    ensures
        follows_rule(trace.push(e), start, cart),
{
    let t = trace.push(e);
    assert forall|k: int| 0 <= k < t.len() implies match #[trigger] t[k] {
        EnvEvent::Reset(o) => o == plain(start),
        EnvEvent::Step(a, o) => o == env_rule(cart, board_after(t.take(k), start), a),
    } by {
        if k < trace.len() {
            assert(t[k] == trace[k]);
            assert(t.take(k) =~= trace.take(k));
        } else {
            assert(t.take(k) =~= trace);
        }
    }
}

/// What record `r` says the environment returned.
pub open spec fn recorded_outcome(r: Record) -> Outcome {
    Outcome { grid: r.after, level_up: r.level_up, dead: r.dead, win: r.win }
}

proof fn lemma_steps_of_index(recs: Seq<Record>)
    ensures
        steps_of(recs).len() == recs.len(),
        forall|k: int| 0 <= k < recs.len() ==> #[trigger] steps_of(recs)[k] == step_of(recs[k]),
    decreases recs.len(),
{
    if recs.len() > 0 {
        lemma_steps_of_index(recs.drop_last());
        assert forall|k: int| 0 <= k < recs.len() implies #[trigger] steps_of(recs)[k] == step_of(recs[k]) by {
            if k < recs.len() - 1 {
                assert(recs.drop_last()[k] == recs[k]);
            }
        }
    }
}

/// Records made by stepping, in order, an environment whose record follows
/// its hidden rule, the first from the board the environment held and each
/// next from the board the one before left, are each the hidden rule
/// applied to their own state before.
pub proof fn lemma_records_follow_rule(t0: Seq<EnvEvent>, recs: Seq<Record>, start: Seq<Seq<u8>>, cart: bool)
    requires
        follows_rule(t0 + steps_of(recs), start, cart),
        recs.len() > 0 ==> recs[0].before == board_after(t0, start),
        forall|k: int| 1 <= k < recs.len() ==> (#[trigger] recs[k]).before == recs[k - 1].after,
    ensures
        forall|k: int|
            0 <= k < recs.len() ==> recorded_outcome(#[trigger] recs[k]) == env_rule(
                cart,
                recs[k].before,
                recs[k].action,
            ),
{
    let t = t0 + steps_of(recs);
    lemma_steps_of_index(recs);
    assert forall|k: int| 0 <= k < recs.len() implies recorded_outcome(#[trigger] recs[k]) == env_rule(
        cart,
        recs[k].before,
        recs[k].action,
    ) by {
        let i = t0.len() + k;
        assert(t[i] == step_of(recs[k]));
        let pre = t.take(i);
        if k == 0 {
            assert(pre =~= t0);
        } else {
            assert(pre.last() == t[i - 1]);
            assert(t[i - 1] == step_of(recs[k - 1]));
        }
    }
}

/// The maze's starting board.
pub open spec fn toggle_layout() -> Seq<Seq<u8>> {
    seq![
        seq![5u8, 5, 5, 5, 5, 5, 5],
        seq![5u8, 1, 0, 7, 0, 3, 5],
        seq![5u8, 5, 5, 5, 5, 5, 5],
    ]
}

fn make_toggle_layout() -> (g: Grid)
    ensures
        board(&g) == toggle_layout(),
        walled(board(&g)),
{
    let g: Grid = vec![vec![5, 5, 5, 5, 5, 5, 5], vec![5, 1, 0, 7, 0, 3, 5], vec![5, 5, 5, 5, 5, 5, 5]];
    assert(board(&g) =~= toggle_layout());
    assert(board(&g)[1][1] == 1);
    g
}

/// A corridor blocked by a mystery colour 7 which is in truth passable.
pub struct ToggleMaze {
    grid: Grid,
    actions_taken: usize,
    trace: Ghost<Seq<EnvEvent>>,
}

impl ToggleMaze {
    #[verifier::type_invariant]
    spec fn well_formed(self) -> bool {
        &&& walled(board(&self.grid))
        &&& follows_rule(self.trace@, toggle_layout(), false)
        &&& board(&self.grid) == board_after(self.trace@, toggle_layout())
    }

    /// The current board.
    pub closed spec fn state(&self) -> Seq<Seq<u8>> {
        board(&self.grid)
    }

    /// The maze's record follows its hidden rule: each reset returned the
    /// starting board, each step is the rule applied to the board before it,
    /// and the maze holds the board its record ends on.
    pub fn replays_rule(&self)
        ensures
            follows_rule(self.spec_trace(), toggle_layout(), false),
            self.state() == board_after(self.spec_trace(), toggle_layout()),
    {
        proof {
            use_type_invariant(self);
        }
    }

    pub fn new() -> (env: ToggleMaze)
        ensures
            env.state() == toggle_layout(),
            env.spec_actions_taken() == 0,
            env.spec_trace() == Seq::<EnvEvent>::empty(),
    {
        assert(follows_rule(Seq::<EnvEvent>::empty(), toggle_layout(), false));
        ToggleMaze { grid: make_toggle_layout(), actions_taken: 0, trace: Ghost(Seq::empty()) }
    }
}

impl Default for ToggleMaze {
    fn default() -> (env: ToggleMaze)
        ensures
            env.state() == toggle_layout(),
            env.spec_actions_taken() == 0,
            env.spec_trace() == Seq::<EnvEvent>::empty(),
    {
        ToggleMaze::new()
    }
}

/// One move of the maze's hidden rule on `grid`.
fn toggle_advance(grid: &mut Grid, action: &str) -> (o: Observation)
    requires
        walled(board(&*old(grid))),
    ensures
        o@ == toggle_rule(board(&*old(grid)), action@),
        board(&*final(grid)) == o@.grid,
        walled(board(&*final(grid))),
{
    let ghost b = board(&*grid);
    let (px, py, tx, ty) = target_of(grid, action);
    let v = grid[ty][tx];
    if v == 0 || v == 7 || v == 3 {
        let g = moved(grid, px, py, tx, ty);
        proof {
            lemma_framed_set(b, px as int, py as int, 0);
            lemma_framed_set(set_cell_spec(b, px as int, py as int, 0), tx as int, ty as int, 1);
            assert(board(&g)[ty as int][tx as int] == 1);
        }
        *grid = g;
        if v == 3 {
            Observation::win(copy_grid(grid))
        } else {
            Observation::of(copy_grid(grid))
        }
    } else {
        Observation::of(copy_grid(grid))
    }
}

impl Environment for ToggleMaze {
    closed spec fn spec_actions_taken(&self) -> nat {
        self.actions_taken as nat
    }

    closed spec fn spec_trace(&self) -> Seq<EnvEvent> {
        self.trace@
    }

    fn reset(&mut self) -> (o: Observation)
        ensures
            final(self).state() == toggle_layout(),
            o@ == plain(toggle_layout()),
    {
        proof {
            use_type_invariant(&*self);
        }
        let g = make_toggle_layout();
        let o = Observation::of(copy_grid(&g));
        let ghost t = self.trace@.push(EnvEvent::Reset(o@));
        proof {
            lemma_follows_push(self.trace@, toggle_layout(), false, EnvEvent::Reset(o@));
        }
        let n = self.actions_taken;
        *self = ToggleMaze { grid: g, actions_taken: n, trace: Ghost(t) };
        o
    }

    fn step(&mut self, action: &str) -> (o: Observation)
        ensures
            o@ == toggle_rule(old(self).state(), action@),
            final(self).state() == o@.grid,
    {
        proof {
            use_type_invariant(&*self);
        }
        let mut g = copy_grid(&self.grid);
        let o = toggle_advance(&mut g, action);
        let ghost t = self.trace@.push(EnvEvent::Step(action@, o@));
        proof {
            lemma_follows_push(self.trace@, toggle_layout(), false, EnvEvent::Step(action@, o@));
        }
        let n = self.actions_taken + 1;
        *self = ToggleMaze { grid: g, actions_taken: n, trace: Ghost(t) };
        o
    }
    fn actions_taken(&self) -> (n: usize) {
        self.actions_taken
    }

    fn legal_actions(&self) -> (r: &[&'static str])
        ensures
            r@ == ACTIONS@,
    {
        &ACTIONS
    }
}

/// The cart game's hidden rule: floor is walked onto, the goal wins, a cart
/// (4) is pushed onto floor or the dock (6), and a cart landing on the dock
/// turns the wall cell `GATE` into floor.
pub open spec fn cart_rule(b: Seq<Seq<u8>>, a: Seq<char>) -> Outcome {
    match player_of(b) {
        None => plain(b),
        Some(pos) => {
            let (px, py) = pos;
            let (dx, dy) = action_delta(a);
            let tx = px + dx;
            let ty = py + dy;
            if !on_board(b, tx, ty) {
                plain(b)
            } else if b[ty][tx] == 0 {
                plain(moved_spec(b, px, py, tx, ty))
            } else if b[ty][tx] == 3 {
                winning(moved_spec(b, px, py, tx, ty))
            } else if b[ty][tx] == 4 {
                let bx = tx + dx;
                let by = ty + dy;
                if !on_board(b, bx, by) {
                    plain(b)
                } else if b[by][bx] == 0 || b[by][bx] == 6 {
                    let g = set_cell_spec(
                        set_cell_spec(set_cell_spec(b, bx, by, 4), tx, ty, 1),
                        px,
                        py,
                        0,
                    );
                    if b[by][bx] == 6 {
                        plain(set_cell_spec(g, 3, 2, 0))
                    } else {
                        plain(g)
                    }
                } else {
                    plain(b)
                }
            } else {
                plain(b)
            }
        },
    }
}

/// The cart game's starting board.
pub open spec fn cart_layout() -> Seq<Seq<u8>> {
    seq![
        seq![5u8, 5, 5, 5, 5, 5, 5],
        seq![5u8, 1, 0, 4, 0, 6, 5],
        seq![5u8, 5, 5, 5, 5, 5, 5],
        seq![5u8, 5, 5, 3, 5, 5, 5],
        seq![5u8, 5, 5, 5, 5, 5, 5],
    ]
}

fn make_cart_layout() -> (g: Grid)
    ensures
        board(&g) == cart_layout(),
        cart_shape(board(&g)),
{
    let g: Grid = vec![
        vec![5, 5, 5, 5, 5, 5, 5],
        vec![5, 1, 0, 4, 0, 6, 5],
        vec![5, 5, 5, 5, 5, 5, 5],
        vec![5, 5, 5, 3, 5, 5, 5],
        vec![5, 5, 5, 5, 5, 5, 5],
    ];
    assert(board(&g) =~= cart_layout());
    assert(board(&g)[1][1] == 1);
    assert(dock_fixed(board(&g))) by {
        assert forall|y: int, x: int| 0 <= y < 5 && 0 <= x < 7 && #[trigger] cart_layout()[y][x] == 6 implies x == 5 && y == 1 by {
            if y == 1 {
            } else {
                assert(cart_layout()[y][x] != 6);
            }
        }
    }
    g
}

/// Every dock cell (6) is the cell `(5, 1)`.
pub open spec fn dock_fixed(b: Seq<Seq<u8>>) -> bool {
    forall|y: int, x: int| 0 <= y < b.len() && 0 <= x < b[y].len() && #[trigger] b[y][x] == 6 ==> x == 5 && y == 1
}

/// The shape every board of the cart game keeps: walled, five rows of
/// seven, with its only dock at `(5, 1)`.
pub open spec fn cart_shape(b: Seq<Seq<u8>>) -> bool {
    &&& walled(b)
    &&& b.len() == 5
    &&& b[0].len() == 7
    &&& dock_fixed(b)
}

/// A Sokoban-style cart on a track: when the cart is pushed onto the dock,
/// a gate wall elsewhere opens.
pub struct CartDock {
    grid: Grid,
    actions_taken: usize,
    trace: Ghost<Seq<EnvEvent>>,
}

impl CartDock {
    /// The wall cell `(x, y)` that becomes floor once the cart docks.
    pub const GATE: (usize, usize) = (3, 2);

    #[verifier::type_invariant]
    spec fn well_formed(self) -> bool {
        &&& cart_shape(board(&self.grid))
        &&& follows_rule(self.trace@, cart_layout(), true)
        &&& board(&self.grid) == board_after(self.trace@, cart_layout())
    }

    /// The current board.
    pub closed spec fn state(&self) -> Seq<Seq<u8>> {
        board(&self.grid)
    }

    /// The game's record follows its hidden rule: each reset returned the
    /// starting board, each step is the rule applied to the board before it,
    /// and the game holds the board its record ends on.
    pub fn replays_rule(&self)
        ensures
            follows_rule(self.spec_trace(), cart_layout(), true),
            self.state() == board_after(self.spec_trace(), cart_layout()),
    {
        proof {
            use_type_invariant(self);
        }
    }

    pub fn new() -> (env: CartDock)
        ensures
            env.state() == cart_layout(),
            env.spec_actions_taken() == 0,
            env.spec_trace() == Seq::<EnvEvent>::empty(),
    {
        assert(follows_rule(Seq::<EnvEvent>::empty(), cart_layout(), true));
        CartDock { grid: make_cart_layout(), actions_taken: 0, trace: Ghost(Seq::empty()) }
    }
}

impl Default for CartDock {
    fn default() -> (env: CartDock)
        ensures
            env.state() == cart_layout(),
            env.spec_actions_taken() == 0,
            env.spec_trace() == Seq::<EnvEvent>::empty(),
    {
        CartDock::new()
    }
}

/// One move of the cart game's hidden rule on `grid`.
fn cart_advance(grid: &mut Grid, action: &str) -> (o: Observation)
    requires
        cart_shape(board(&*old(grid))),
    ensures
        o@ == cart_rule(board(&*old(grid)), action@),
        board(&*final(grid)) == o@.grid,
        cart_shape(board(&*final(grid))),
{
    let ghost b = board(&*grid);
    let (px, py, tx, ty) = target_of(grid, action);
    let v = grid[ty][tx];
    if v == 0 || v == 3 {
        let g = moved(grid, px, py, tx, ty);
        proof {
            lemma_framed_set(b, px as int, py as int, 0);
            lemma_framed_set(set_cell_spec(b, px as int, py as int, 0), tx as int, ty as int, 1);
            assert(board(&g)[ty as int][tx as int] == 1);
        }
        *grid = g;
        if v == 3 {
            Observation::win(copy_grid(grid))
        } else {
            Observation::of(copy_grid(grid))
        }
    } else if v == 4 {
        let (dx, dy) = delta(action);
        proof {
            if tx == 0 || ty == 0 || ty as int == b.len() - 1 || tx as int == b[0].len() - 1 {
                assert(b[ty as int][tx as int] == 5);
            }
            assert(b[ty as int].len() == b[0].len());
        }
        let bx = (tx as i128 + dx as i128) as usize;
        let by = (ty as i128 + dy as i128) as usize;
        assert(b[by as int].len() == b[0].len());
        let beyond = grid[by][bx];
        if beyond == 0 || beyond == 6 {
            let mut g = copy_grid(grid);
            assert(board(&g).len() == g.len());
            set_cell(&mut g, bx, by, 4);
            assert(board(&g).len() == g.len());
            assert(board(&g)[ty as int].len() == g[ty as int].len());
            set_cell(&mut g, tx, ty, 1);
            assert(board(&g).len() == g.len());
            assert(board(&g)[py as int].len() == g[py as int].len());
            set_cell(&mut g, px, py, 0);
            proof {
                let b1 = set_cell_spec(b, bx as int, by as int, 4);
                let b2 = set_cell_spec(b1, tx as int, ty as int, 1);
                lemma_framed_set(b, bx as int, by as int, 4);
                lemma_framed_set(b1, tx as int, ty as int, 1);
                lemma_framed_set(b2, px as int, py as int, 0);
                assert(board(&g)[ty as int][tx as int] == 1);
            }
            if beyond == 6 {
                let ghost g0 = board(&g);
                assert(board(&g)[2].len() == g[2].len());
                set_cell(&mut g, 3, 2, 0);
                proof {
                    lemma_framed_set(g0, 3, 2, 0);
                    assert(board(&g)[ty as int][tx as int] == 1);
                }
            }
            *grid = g;
        }
        Observation::of(copy_grid(grid))
    } else {
        Observation::of(copy_grid(grid))
    }
}

impl Environment for CartDock {
    closed spec fn spec_actions_taken(&self) -> nat {
        self.actions_taken as nat
    }

    closed spec fn spec_trace(&self) -> Seq<EnvEvent> {
        self.trace@
    }

    fn reset(&mut self) -> (o: Observation)
        ensures
            final(self).state() == cart_layout(),
            o@ == plain(cart_layout()),
    {
        proof {
            use_type_invariant(&*self);
        }
        let g = make_cart_layout();
        let o = Observation::of(copy_grid(&g));
        let ghost t = self.trace@.push(EnvEvent::Reset(o@));
        proof {
            lemma_follows_push(self.trace@, cart_layout(), true, EnvEvent::Reset(o@));
        }
        let n = self.actions_taken;
        *self = CartDock { grid: g, actions_taken: n, trace: Ghost(t) };
        o
    }

    fn step(&mut self, action: &str) -> (o: Observation)
        ensures
            o@ == cart_rule(old(self).state(), action@),
            final(self).state() == o@.grid,
    {
        proof {
            use_type_invariant(&*self);
        }
        let mut g = copy_grid(&self.grid);
        let o = cart_advance(&mut g, action);
        let ghost t = self.trace@.push(EnvEvent::Step(action@, o@));
        proof {
            lemma_follows_push(self.trace@, cart_layout(), true, EnvEvent::Step(action@, o@));
        }
        let n = self.actions_taken + 1;
        *self = CartDock { grid: g, actions_taken: n, trace: Ghost(t) };
        o
    }
    fn actions_taken(&self) -> (n: usize) {
        self.actions_taken
    }

    fn legal_actions(&self) -> (r: &[&'static str])
        ensures
            r@ == ACTIONS@,
    {
        &ACTIONS
    }
}

} // verus!
