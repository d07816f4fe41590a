//! Demo deliberators: bounded-hypothesis stand-ins for the inference plane.
//! They see only observations, the Timeline, backtest reports, and
//! counterexamples, never the environments' hidden rules.

use std::collections::BTreeMap;

use vstd::prelude::*;

use crate::grid::{
    action_delta, board, cell_on_board, copy_grid, has_color, locate, moved, moved_spec, on_board,
    player_of, set_cell, set_cell_spec, Grid,
};
use crate::model::{lethal, plain, winning, Outcome, Prediction};
use crate::agent::{call_record, Deliberation, DeliberationCall, Deliberator, Intent};
use crate::backtest::{summary_text, BacktestReport};
use crate::model::{GoalRule, StepRule, WorldModel};
use crate::planner::{bfs_summary_text, plan_reaches, run_bfs, GoalVia};
use crate::text::{
    decimal, join, list_text, owned, push_color_list, push_decimal, push_quoted_list, push_str,
    quoted_list, texts,
};
use crate::timeline::{Timeline, Transition};

verus! {

broadcast use crate::grid::group_board, vstd::laws_cmp::group_laws_cmp,
    vstd::std_specs::btree::group_btree_axioms;

/// What a colour does to a player who tries to enter it.
#[derive(Debug, Clone, Copy, PartialEq, Eq, Structural, PartialOrd, Ord, Hash)]
pub enum Semantics {
    Blocking,
    Passable,
    Lethal,
}

/// The semantics a table assigns to colour `c`; unlisted colours block.
pub open spec fn sem_lookup(m: Map<u8, Semantics>, c: u8) -> Semantics {
    if m.contains_key(c) {
        m[c]
    } else {
        Semantics::Blocking
    }
}

/// The prediction of a semantics hypothesis: floor `0` is walked onto, the
/// goal `3` is walked onto and wins, other colours act as the table says.
#[verifier::opaque]
pub open spec fn semantics_step(m: Map<u8, Semantics>, b: Seq<Seq<u8>>, a: Seq<char>) -> Outcome {
    match player_of(b) {
        None => plain(b),
        Some(pos) => {
            let (px, py) = pos;
            let (dx, dy) = action_delta(a);
            let tx = px + dx;
            let ty = py + dy;
            if !on_board(b, tx, ty) {
                plain(b)
            } else {
                let v = b[ty][tx];
                if v == 0 {
                    plain(moved_spec(b, px, py, tx, ty))
                } else if v == 3 {
                    winning(moved_spec(b, px, py, tx, ty))
                } else {
                    match sem_lookup(m, v) {
                        Semantics::Passable => plain(moved_spec(b, px, py, tx, ty)),
                        Semantics::Lethal => lethal(b),
                        Semantics::Blocking => plain(b),
                    }
                }
            }
        },
    }
}

/// Predicts one step under a semantics hypothesis.
#[verifier::loop_isolation(false)]
pub fn predict(sem: &BTreeMap<u8, Semantics>, state: &Grid, action: &str) -> (p: Prediction)
    ensures
        p@ == semantics_step(sem@, board(state), action@),
{
    reveal(semantics_step);
    let ghost b = board(state);
    let (px, py) = match locate(state, 1) {
        Some(p) => p,
        None => {
            return Prediction::of(copy_grid(state));
        },
    };
    proof {
        crate::grid::lemma_first_of_some(b, 1);
    }
    let (dx, dy) = crate::envs::delta(action);
    let tx = px as i128 + dx as i128;
    let ty = py as i128 + dy as i128;
    if !cell_on_board(state, tx, ty) {
        return Prediction::of(copy_grid(state));
    }
    let txu = tx as usize;
    let tyu = ty as usize;
    let v = state[tyu][txu];
    if v == 0 {
        return Prediction::of(moved(state, px, py, txu, tyu));
    }
    if v == 3 {
        return Prediction::win(moved(state, px, py, txu, tyu));
    }
    let s = match sem.get(&v) {
        Some(s) => *s,
        None => Semantics::Blocking,
    };
    match s {
        Semantics::Passable => Prediction::of(moved(state, px, py, txu, tyu)),
        Semantics::Lethal => Prediction::dead(copy_grid(state)),
        Semantics::Blocking => Prediction::of(copy_grid(state)),
    }
}

/// The board with every on-board cell named in `reflow` set to its value.
pub open spec fn reflowed(b: Seq<Seq<u8>>, reflow: Map<(usize, usize), u8>) -> Seq<Seq<u8>> {
    Seq::new(
        b.len(),
        |y: int|
            Seq::new(
                b[y].len(),
                |x: int|
                    if reflow.contains_key((x as usize, y as usize)) {
                        reflow[(x as usize, y as usize)]
                    } else {
                        b[y][x]
                    },
            ),
    )
}

/// The prediction of the cart representation: floor is walked onto, the goal
/// wins, a cart (4) is pushed onto floor or a dock (6); once the
/// representation is unified, a cart landing on a dock cell rewrites the
/// learned reflow cells.
#[verifier::opaque]
pub open spec fn cart_step_spec(
    dock_cells: Seq<(usize, usize)>,
    reflow: Map<(usize, usize), u8>,
    unified: bool,
    b: Seq<Seq<u8>>,
    a: Seq<char>,
) -> Outcome {
    match player_of(b) {
        None => plain(b),
        Some(pos) => {
            let (px, py) = pos;
            let (dx, dy) = action_delta(a);
            let tx = px + dx;
            let ty = py + dy;
            if !on_board(b, tx, ty) {
                plain(b)
            } else {
                let v = b[ty][tx];
                if v == 0 {
                    plain(moved_spec(b, px, py, tx, ty))
                } else if v == 3 {
                    winning(moved_spec(b, px, py, tx, ty))
                } else if v == 4 {
                    let bx = tx + dx;
                    let by = ty + dy;
                    if !on_board(b, bx, by) {
                        plain(b)
                    } else {
                        let beyond = b[by][bx];
                        if beyond == 0 || beyond == 6 {
                            let g = set_cell_spec(
                                set_cell_spec(set_cell_spec(b, bx, by, 4), tx, ty, 1),
                                px,
                                py,
                                0,
                            );
                            if unified && dock_cells.contains((bx as usize, by as usize)) {
                                plain(reflowed(g, reflow))
                            } else {
                                plain(g)
                            }
                        } else {
                            plain(b)
                        }
                    }
                } else {
                    plain(b)
                }
            }
        },
    }
}

/// The step `a` from board `b` pushes the cart (4) onto a floor or dock
/// cell that is one of `dock_cells`.
pub open spec fn docks_cart(dock_cells: Seq<(usize, usize)>, b: Seq<Seq<u8>>, a: Seq<char>) -> bool {
    match player_of(b) {
        None => false,
        Some(pos) => {
            let (dx, dy) = action_delta(a);
            let tx = pos.0 + dx;
            let ty = pos.1 + dy;
            let bx = tx + dx;
            let by = ty + dy;
            on_board(b, tx, ty) && b[ty][tx] == 4 && on_board(b, bx, by) && (b[by][bx] == 0 || b[by][bx]
                == 6) && dock_cells.contains((bx as usize, by as usize))
        },
    }
}

/// The step `a` from board `b` enters the goal (3).
pub open spec fn enters_goal(b: Seq<Seq<u8>>, a: Seq<char>) -> bool {
    match player_of(b) {
        None => false,
        Some(pos) => {
            let (dx, dy) = action_delta(a);
            on_board(b, pos.0 + dx, pos.1 + dy) && b[pos.1 + dy][pos.0 + dx] == 3
        },
    }
}

/// Unifying the cart representation changes a prediction only where the
/// cart is pushed onto a dock cell, and there the learned reflow is written
/// over the board; the flags never change: only entering the goal wins, and
/// no step dies or levels up.
pub proof fn lemma_unified_changes_only_docking(
    dock_cells: Seq<(usize, usize)>,
    reflow: Map<(usize, usize), u8>,
    b: Seq<Seq<u8>>,
    a: Seq<char>,
)
    ensures
        ({
            let u = cart_step_spec(dock_cells, reflow, true, b, a);
            let p = cart_step_spec(dock_cells, reflow, false, b, a);
            &&& u.win == p.win && u.dead == p.dead && u.level_up == p.level_up
            &&& p.win == enters_goal(b, a)
            &&& !p.dead && !p.level_up
            &&& u.grid == if docks_cart(dock_cells, b, a) {
                reflowed(p.grid, reflow)
            } else {
                p.grid
            }
        }),
{
    reveal(cart_step_spec);
    if docks_cart(dock_cells, b, a) {
        let pos = player_of(b).unwrap();
        let (dx, dy) = action_delta(a);
        assert(on_board(b, pos.0 + dx, pos.1 + dy));
    }
}

/// Rewrites every on-board cell named in `reflow` to its value.
fn apply_reflow(g: &mut Grid, reflow: &BTreeMap<(usize, usize), u8>)
    ensures
        board(final(g)) == reflowed(board(old(g)), reflow@),
{
    let ghost b0 = board(g);
    let mut y: usize = 0;
    while y < g.len()
        invariant
            y <= g.len(),
            board(g).len() == b0.len(),
            forall|j: int| 0 <= j < b0.len() ==> #[trigger] board(g)[j].len() == b0[j].len(),
            forall|j: int| 0 <= j < y ==> #[trigger] board(g)[j] == reflowed(b0, reflow@)[j],
            forall|j: int| y <= j < b0.len() ==> #[trigger] board(g)[j] == b0[j],
        decreases g.len() - y,
    {
        let mut x: usize = 0;
        assert(board(g)[y as int].len() == g[y as int].len());
        while x < g[y].len()
            invariant
                y < g.len(),
                g.len() == b0.len(),
                g[y as int].len() == b0[y as int].len(),
                x <= g[y as int].len(),
                board(g).len() == b0.len(),
                forall|j: int| 0 <= j < b0.len() ==> #[trigger] board(g)[j].len() == b0[j].len(),
                forall|j: int| 0 <= j < y ==> #[trigger] board(g)[j] == reflowed(b0, reflow@)[j],
                forall|j: int| y < j < b0.len() ==> #[trigger] board(g)[j] == b0[j],
                forall|i: int| 0 <= i < x ==> #[trigger] board(g)[y as int][i] == reflowed(b0, reflow@)[y as int][i],
                forall|i: int| x <= i < b0[y as int].len() ==> #[trigger] board(g)[y as int][i] == b0[y as int][i],
            decreases g[y as int].len() - x,
        {
            match reflow.get(&(x, y)) {
                Some(v) => {
                    let v = *v;
                    set_cell(g, x, y, v);
                    assert(board(g).len() == g.len());
                    assert(board(g)[y as int].len() == g[y as int].len());
                },
                None => {},
            }
            x = x + 1;
        }
        assert(board(g)[y as int] =~= reflowed(b0, reflow@)[y as int]);
        y = y + 1;
    }
    assert(board(g) =~= reflowed(b0, reflow@));
}

/// Predicts one step of the cart representation.
#[verifier::loop_isolation(false)]
pub fn cart_step(
    dock_cells: &Vec<(usize, usize)>,
    reflow: &BTreeMap<(usize, usize), u8>,
    unified: bool,
    state: &Grid,
    action: &str,
) -> (p: Prediction)
    ensures
        p@ == cart_step_spec(dock_cells@, reflow@, unified, board(state), action@),
{
    reveal(cart_step_spec);
    let ghost b = board(state);
    let (px, py) = match locate(state, 1) {
        Some(p) => p,
        None => {
            return Prediction::of(copy_grid(state));
        },
    };
    proof {
        crate::grid::lemma_first_of_some(b, 1);
    }
    let (dx, dy) = crate::envs::delta(action);
    let tx = px as i128 + dx as i128;
    let ty = py as i128 + dy as i128;
    if !cell_on_board(state, tx, ty) {
        return Prediction::of(copy_grid(state));
    }
    let txu = tx as usize;
    let tyu = ty as usize;
    let v = state[tyu][txu];
    if v == 0 {
        return Prediction::of(moved(state, px, py, txu, tyu));
    }
    if v == 3 {
        return Prediction::win(moved(state, px, py, txu, tyu));
    }
    if v != 4 {
        return Prediction::of(copy_grid(state));
    }
    let bx = tx + dx as i128;
    let by = ty + dy as i128;
    if !cell_on_board(state, bx, by) {
        return Prediction::of(copy_grid(state));
    }
    let bxu = bx as usize;
    let byu = by as usize;
    let beyond = state[byu][bxu];
    if beyond == 0 || beyond == 6 {
        let mut g = copy_grid(state);
        assert(board(&g).len() == g.len());
        set_cell(&mut g, bxu, byu, 4);
        assert(board(&g).len() == g.len());
        assert(board(&g)[tyu as int].len() == g[tyu as int].len());
        set_cell(&mut g, txu, tyu, 1);
        assert(board(&g).len() == g.len());
        assert(board(&g)[py as int].len() == g[py as int].len());
        set_cell(&mut g, px, py, 0);
        if unified && contains_pos(dock_cells, (bxu, byu)) {
            apply_reflow(&mut g, reflow);
        }
        Prediction::of(g)
    } else {
        Prediction::of(copy_grid(state))
    }
}

/// A colour whose mechanism is unknown: present on the board and none of
/// floor 0, player 1, goal 3.
pub open spec fn mystery_color(b: Seq<Seq<u8>>, c: u8) -> bool {
    c != 0 && c != 1 && c != 3 && has_color(b, c)
}

/// The unknown colours below `n`, in increasing order.
pub open spec fn mystery_colors_below(b: Seq<Seq<u8>>, n: int) -> Seq<u8>
    decreases n,
{
    if n <= 0 {
        Seq::empty()
    } else if mystery_color(b, (n - 1) as u8) {
        mystery_colors_below(b, n - 1).push((n - 1) as u8)
    } else {
        mystery_colors_below(b, n - 1)
    }
}

/// The unknown colours of a board, distinct and in increasing order.
pub open spec fn mystery_colors(b: Seq<Seq<u8>>) -> Seq<u8> {
    mystery_colors_below(b, 256)
}

/// The `k`-th semantics in the fixed enumeration order.
pub open spec fn semantics_at(k: int) -> Semantics {
    if k == 0 {
        Semantics::Blocking
    } else if k == 1 {
        Semantics::Passable
    } else {
        Semantics::Lethal
    }
}

/// Every candidate extended by each semantics for colour `c`, in order.
pub open spec fn expand(cands: Seq<Map<u8, Semantics>>, c: u8) -> Seq<Map<u8, Semantics>> {
    Seq::new(cands.len() * 3, |i: int| cands[i / 3].insert(c, semantics_at(i % 3)))
}

/// Every assignment of a semantics to each of `colors`, in enumeration order.
pub open spec fn candidates_for(colors: Seq<u8>) -> Seq<Map<u8, Semantics>>
    decreases colors.len(),
{
    if colors.len() == 0 {
        seq![Map::empty()]
    } else {
        expand(candidates_for(colors.drop_last()), colors.last())
    }
}

/// Every candidate assigns a semantics to each colour.
pub open spec fn covers(cands: Seq<Map<u8, Semantics>>, colors: Seq<u8>) -> bool {
    forall|i: int, j: int|
        0 <= i < cands.len() && 0 <= j < colors.len() ==> #[trigger] cands[i].contains_key(
            #[trigger] colors[j],
        )
}

proof fn lemma_candidates_cover(colors: Seq<u8>)
    ensures
        covers(candidates_for(colors), colors),
        candidates_for(colors).len() >= 1,
    decreases colors.len(),
{
    if colors.len() > 0 {
        let prev = colors.drop_last();
        lemma_candidates_cover(prev);
        let cands = candidates_for(colors);
        let pc = candidates_for(prev);
        assert forall|i: int, j: int|
            0 <= i < cands.len() && 0 <= j < colors.len() implies #[trigger] cands[i].contains_key(
            #[trigger] colors[j],
        ) by {
            assert(cands[i] == pc[i / 3].insert(colors.last(), semantics_at(i % 3)));
            if j < prev.len() {
                assert(colors[j] == prev[j]);
                assert(pc[i / 3].contains_key(prev[j]));
            }
        }
    }
}

/// Whether colour `c` occurs on the board.
pub(crate) fn grid_has_color(g: &Grid, c: u8) -> (r: bool)
    ensures
        r == has_color(board(g), c),
{
    let found = locate(g, c);
    proof {
        let b = board(g);
        if has_color(b, c) {
            let (yy, xx) = choose|y: int, x: int| 0 <= y < b.len() && 0 <= x < b[y].len() && b[y][x] == c;
            crate::grid::lemma_first_exists(b, c, xx, yy);
        }
        if found is Some {
            crate::grid::lemma_first_of_some(b, c);
        }
    }
    found.is_some()
}

/// Colour `c` is ambiguous among the candidates: two of them disagree on it.
pub open spec fn ambiguous(cands: Seq<Map<u8, Semantics>>, c: u8) -> bool {
    exists|i: int, j: int| 0 <= i < cands.len() && 0 <= j < cands.len() && #[trigger] cands[i][c] != #[trigger] cands[j][c]
}

/// The candidate semantics maps, as mathematical maps.
pub open spec fn map_views(v: Seq<BTreeMap<u8, Semantics>>) -> Seq<Map<u8, Semantics>> {
    v.map_values(|m: BTreeMap<u8, Semantics>| m@)
}

/// A semantics hypothesis predicts every recorded transition of `tl`.
pub open spec fn fits_history(m: Map<u8, Semantics>, tl: Seq<crate::timeline::Record>) -> bool {
    forall|i: int|
        0 <= i < tl.len() ==> crate::backtest::consistent(
            semantics_step(m, #[trigger] tl[i].before, tl[i].action),
            tl[i],
        )
}

/// Priors: colour 1 is the agent, 0 floor, 3 the goal, actions move the player one
/// cell. Unknown mechanism: the semantics of every other colour present.
pub struct ToggleDeliberator {
    unknown_colors: Vec<u8>,
    candidates: Vec<BTreeMap<u8, Semantics>>,
    /// Every deliberation so far.
    calls: Ghost<Seq<DeliberationCall>>,
}

impl ToggleDeliberator {
    #[verifier::type_invariant]
    spec fn covered(self) -> bool {
        covers(map_views(self.candidates@), self.unknown_colors@)
    }

    /// The colours whose mechanism is unknown.
    pub closed spec fn colors(&self) -> Seq<u8> {
        self.unknown_colors@
    }

    /// The surviving candidate mechanisms.
    pub closed spec fn candidate_maps(&self) -> Seq<Map<u8, Semantics>> {
        map_views(self.candidates@)
    }

    pub fn new(initial_grid: &Grid) -> (d: Self)
        ensures
            d.colors() == mystery_colors(board(initial_grid)),
            d.candidate_maps() == candidates_for(mystery_colors(board(initial_grid))),
            d.spec_calls().len() == 0,
    {
        let ghost b = board(initial_grid);
        let mut colors: Vec<u8> = Vec::new();
        let mut c: u16 = 0;
        while c < 256
            invariant
                c <= 256,
                b == board(initial_grid),
                colors@ == mystery_colors_below(b, c as int),
            decreases 256 - c,
        {
            let cu = c as u8;
            if cu != 0 && cu != 1 && cu != 3 && grid_has_color(initial_grid, cu) {
                colors.push(cu);
            }
            c = c + 1;
        }
        let mut candidates: Vec<BTreeMap<u8, Semantics>> = Vec::new();
        candidates.push(BTreeMap::new());
        assert(map_views(candidates@) =~= candidates_for(colors@.take(0)));
        let mut k: usize = 0;
        while k < colors.len()
            invariant
                k <= colors.len(),
                map_views(candidates@) == candidates_for(colors@.take(k as int)),
            decreases colors.len() - k,
        {
            let color = colors[k];
            let ghost prev = map_views(candidates@);
            let mut next: Vec<BTreeMap<u8, Semantics>> = Vec::new();
            let mut j: usize = 0;
            while j < candidates.len()
                invariant
                    j <= candidates.len(),
                    prev == map_views(candidates@),
                    map_views(next@) == expand(prev, color).take(3 * j),
                decreases candidates.len() - j,
            {
                let mut q: usize = 0;
                while q < 3
                    invariant
                        j < candidates.len(),
                        q <= 3,
                        prev == map_views(candidates@),
                        map_views(next@) == expand(prev, color).take(3 * j + q),
                    decreases 3 - q,
                {
                    let s = if q == 0 {
                        Semantics::Blocking
                    } else if q == 1 {
                        Semantics::Passable
                    } else {
                        Semantics::Lethal
                    };
                    let mut m2 = candidates[j].clone();
                    assert(m2@ == candidates@[j as int]@);
                    m2.insert(color, s);
                    assert(m2@ == candidates@[j as int]@.insert(color, s));
                    assert(s == semantics_at(q as int));
                    let ghost before = next@;
                    next.push(m2);
                    proof {
                        let e = expand(prev, color);
                        let n: int = 3 * j + q;
                        assert(next@ == before.push(m2));
                        assert(map_views(before) == e.take(n));
                        assert(prev.len() == candidates@.len());
                        assert(e.len() == prev.len() * 3);
                        assert(n + 1 <= e.len());
                        assert(n / 3 == j);
                        assert(n % 3 == q);
                        assert(e[n] == prev[j as int].insert(color, semantics_at(q as int)));
                        assert(map_views(before).len() == before.len());
                        assert(before.len() == n);
                        assert forall|k: int| 0 <= k < n + 1 implies map_views(next@)[k] == e.take(n + 1)[k] by {
                            if k < n {
                                assert(next@[k] == before[k]);
                                assert(map_views(before)[k] == e.take(n)[k]);
                            } else {
                                assert(next@[k] == m2);
                            }
                        }
                        assert(map_views(next@) =~= e.take(n + 1));
                    }
                    q = q + 1;
                }
                j = j + 1;
            }
            assert(expand(prev, color).take(3 * candidates@.len() as int) =~= expand(prev, color));
            assert(colors@.take(k + 1).drop_last() =~= colors@.take(k as int));
            candidates = next;
            k = k + 1;
        }
        assert(colors@.take(colors.len() as int) =~= colors@);
        proof {
            lemma_candidates_cover(colors@);
        }
        ToggleDeliberator { unknown_colors: colors, candidates, calls: Ghost(Seq::empty()) }
    }
}

/// The cell reached from `start` by moving along the actions of `path`.
pub open spec fn walk(start: (int, int), path: Seq<Seq<char>>) -> (int, int)
    decreases path.len(),
{
    if path.len() == 0 {
        start
    } else {
        let p = walk(start, path.drop_last());
        let d = action_delta(path.last());
        (p.0 + d.0, p.1 + d.1)
    }
}

/// Every cell entered along `path` from `start` is a floor cell (0) on the
/// board.
pub open spec fn floor_path(b: Seq<Seq<u8>>, start: (int, int), path: Seq<Seq<char>>) -> bool {
    forall|k: int|
        1 <= k <= path.len() ==> {
            let c = #[trigger] walk(start, path.take(k));
            crate::grid::in_bounds(b, c.0, c.1) && b[c.1][c.0] == 0
        }
}

/// A discriminating probe: a walk over floor cells from `start` whose last
/// step enters a cell of one of the `targets` colours.
pub open spec fn valid_probe(b: Seq<Seq<u8>>, start: (int, int), path: Seq<Seq<char>>, targets: Seq<u8>) -> bool {
    let end = walk(start, path);
    &&& path.len() >= 1
    &&& floor_path(b, start, path.drop_last())
    &&& crate::grid::in_bounds(b, end.0, end.1)
    &&& targets.contains(b[end.1][end.0])
}

proof fn lemma_floor_path_push(b: Seq<Seq<u8>>, start: (int, int), path: Seq<Seq<char>>, a: Seq<char>)
    requires
        floor_path(b, start, path),
        crate::grid::in_bounds(b, walk(start, path.push(a)).0, walk(start, path.push(a)).1),
        b[walk(start, path.push(a)).1][walk(start, path.push(a)).0] == 0,
    ensures
        floor_path(b, start, path.push(a)),
{
    let q = path.push(a);
    assert forall|k: int| 1 <= k <= q.len() implies {
        let c = #[trigger] walk(start, q.take(k));
        crate::grid::in_bounds(b, c.0, c.1) && b[c.1][c.0] == 0
    } by {
        if k <= path.len() {
            assert(q.take(k) =~= path.take(k));
        } else {
            assert(q.take(k) =~= q);
        }
    }
}

proof fn lemma_key_injective(x1: int, y1: int, x2: int, y2: int, w: int)
    by (nonlinear_arith)
    requires
        0 <= x1 < w,
        0 <= x2 < w,
        0 <= y1,
        0 <= y2,
        y1 * w + x1 == y2 * w + x2,
    ensures
        x1 == x2 && y1 == y2,
{
}

proof fn lemma_key_range(x: int, y: int, w: int, h: int)
    by (nonlinear_arith)
    requires
        0 <= x < w,
        0 <= y < h,
    ensures
        0 <= y * w + x < w * h,
{
}

/// Distinct cells inside a `w` by `h` box number at most `w * h`.
proof fn lemma_cells_bound(cells: Seq<(usize, usize)>, w: int, h: int)
    requires
        cells.no_duplicates(),
        0 <= w,
        0 <= h,
        forall|i: int| 0 <= i < cells.len() ==> (#[trigger] cells[i]).0 < w && cells[i].1 < h,
    ensures
        cells.len() <= w * h,
{
    let keys = cells.map_values(|p: (usize, usize)| p.1 as int * w + p.0 as int);
    assert forall|i: int, j: int| 0 <= i < keys.len() && 0 <= j < keys.len() && i != j implies keys[i] != keys[j] by {
        if keys[i] == keys[j] {
            lemma_key_injective(cells[i].0 as int, cells[i].1 as int, cells[j].0 as int, cells[j].1 as int, w);
            assert(cells[i] == cells[j]);
        }
    }
    assert(keys.no_duplicates());
    keys.unique_seq_to_set();
    vstd::set_lib::lemma_int_range(0, w * h);
    assert forall|k: int| keys.to_set().contains(k) implies vstd::set_lib::set_int_range(0, w * h).contains(k) by {
        let i = choose|i: int| 0 <= i < keys.len() && keys[i] == k;
        lemma_key_range(cells[i].0 as int, cells[i].1 as int, w, h);
    }
    vstd::set_lib::lemma_len_subset(keys.to_set(), vstd::set_lib::set_int_range(0, w * h));
}

fn contains_pos(cells: &Vec<(usize, usize)>, c: (usize, usize)) -> (r: bool)
    ensures
        r == cells@.contains(c),
{
    let mut i: usize = 0;
    while i < cells.len()
        invariant
            i <= cells.len(),
            forall|j: int| 0 <= j < i ==> cells@[j] != c,
        decreases cells.len() - i,
    {
        let d = cells[i];
        if d.0 == c.0 && d.1 == c.1 {
            assert(cells@[i as int] == c);
            return true;
        }
        i = i + 1;
    }
    false
}

/// The cell one move `a` away from `c`.
pub open spec fn step_to(c: (int, int), a: Seq<char>) -> (int, int) {
    (c.0 + action_delta(a).0, c.1 + action_delta(a).1)
}

/// Cell `c` is among `cells` at a position whose path is at most `bound`
/// long.
pub open spec fn reached_within(
    cells: Seq<(usize, usize)>,
    lens: Seq<int>,
    c: (usize, usize),
    bound: int,
) -> bool {
    exists|i: int| 0 <= i < cells.len() && #[trigger] cells[i] == c && lens[i] <= bound
}

/// The neighbour of cell `c` in direction `a` holds no target colour, and
/// when it is floor it has been reached by a path at most `bound` long.
pub open spec fn settled(
    b: Seq<Seq<u8>>,
    cells: Seq<(usize, usize)>,
    lens: Seq<int>,
    targets: Seq<u8>,
    c: (usize, usize),
    bound: int,
    a: Seq<char>,
) -> bool {
    let n = step_to((c.0 as int, c.1 as int), a);
    crate::grid::in_bounds(b, n.0, n.1) ==> !targets.contains(b[n.1][n.0]) && (b[n.1][n.0] == 0
        ==> reached_within(cells, lens, (n.0 as usize, n.1 as usize), bound))
}

/// The first `k` directions out of cell `c` are settled.
pub open spec fn expanded(
    b: Seq<Seq<u8>>,
    cells: Seq<(usize, usize)>,
    lens: Seq<int>,
    targets: Seq<u8>,
    c: (usize, usize),
    bound: int,
    k: int,
) -> bool {
    forall|j: int|
        0 <= j < k ==> #[trigger] settled(b, cells, lens, targets, c, bound, crate::envs::ACTIONS@[j]@)
}

/// Every visited cell reached by a path shorter than `limit` is expanded in
/// all four directions.
pub open spec fn expanded_below(
    b: Seq<Seq<u8>>,
    cells: Seq<(usize, usize)>,
    lens: Seq<int>,
    targets: Seq<u8>,
    limit: int,
) -> bool {
    forall|i: int|
        0 <= i < cells.len() && lens[i] < limit ==> expanded(
            b,
            cells,
            lens,
            targets,
            #[trigger] cells[i],
            lens[i] + 1,
            4,
        )
}

proof fn lemma_settled_grow(
    b: Seq<Seq<u8>>,
    cells: Seq<(usize, usize)>,
    lens: Seq<int>,
    more: Seq<(usize, usize)>,
    more_lens: Seq<int>,
    targets: Seq<u8>,
    c: (usize, usize),
    bound: int,
    k: int,
)
    requires
        expanded(b, cells, lens, targets, c, bound, k),
        cells.len() <= more.len(),
        lens.len() == cells.len(),
        more_lens.len() == more.len(),
        forall|i: int| 0 <= i < cells.len() ==> #[trigger] more[i] == cells[i] && more_lens[i] == lens[i],
    ensures
        expanded(b, more, more_lens, targets, c, bound, k),
{
    assert forall|j: int| 0 <= j < k implies #[trigger] settled(
        b,
        more,
        more_lens,
        targets,
        c,
        bound,
        crate::envs::ACTIONS@[j]@,
    ) by {
        assert(settled(b, cells, lens, targets, c, bound, crate::envs::ACTIONS@[j]@));
        let n = step_to((c.0 as int, c.1 as int), crate::envs::ACTIONS@[j]@);
        if crate::grid::in_bounds(b, n.0, n.1) && b[n.1][n.0] == 0 {
            let i = choose|i: int|
                0 <= i < cells.len() && #[trigger] cells[i] == (n.0 as usize, n.1 as usize)
                    && lens[i] <= bound;
            assert(more[i] == cells[i]);
        }
    }
}

/// Along a walk over the four moves whose entered cells are floor, each
/// cell reached after `j` moves has been reached by a path at most `j`
/// long, as long as the cells reached by shorter paths than `limit` are
/// expanded and `j <= limit`.
proof fn lemma_walk_reached(
    b: Seq<Seq<u8>>,
    start: (int, int),
    cells: Seq<(usize, usize)>,
    lens: Seq<int>,
    targets: Seq<u8>,
    p: Seq<Seq<char>>,
    j: int,
    limit: int,
)
    requires
        cells.len() >= 1,
        lens.len() == cells.len(),
        cells[0] == (start.0 as usize, start.1 as usize),
        lens[0] == 0,
        0 <= start.0 <= usize::MAX,
        0 <= start.1 <= usize::MAX,
        b.len() <= usize::MAX,
        forall|y: int| 0 <= y < b.len() ==> #[trigger] b[y].len() <= usize::MAX,
        expanded_below(b, cells, lens, targets, limit),
        crate::planner::uses_only(p, crate::envs::ACTIONS@),
        valid_probe(b, start, p, targets),
        0 <= j <= p.len() - 1,
        j <= limit,
    ensures
        ({
            let c = walk(start, p.drop_last().take(j));
            0 <= c.0 <= usize::MAX && 0 <= c.1 <= usize::MAX && reached_within(
                cells,
                lens,
                (c.0 as usize, c.1 as usize),
                j,
            )
        }),
    decreases j,
{
    let q = p.drop_last();
    if j == 0 {
        assert(q.take(0) =~= Seq::<Seq<char>>::empty());
        assert(cells[0] == (start.0 as usize, start.1 as usize));
    } else {
        lemma_walk_reached(b, start, cells, lens, targets, p, j - 1, limit);
        let prev = walk(start, q.take(j - 1));
        let i = choose|i: int|
            0 <= i < cells.len() && #[trigger] cells[i] == (prev.0 as usize, prev.1 as usize)
                && lens[i] <= j - 1;
        assert(q.take(j).drop_last() =~= q.take(j - 1));
        let a = q[j - 1];
        assert(q.take(j).last() == a);
        assert(p[j - 1] == a);
        assert(crate::planner::listed(p[j - 1], crate::envs::ACTIONS@));
        let jj = choose|jj: int|
            0 <= jj < crate::envs::ACTIONS@.len() && p[j - 1] == crate::envs::ACTIONS@[jj]@;
        assert(expanded(b, cells, lens, targets, cells[i], lens[i] + 1, 4));
        assert(settled(b, cells, lens, targets, cells[i], lens[i] + 1, crate::envs::ACTIONS@[jj]@));
        let c = walk(start, q.take(j));
        assert(c == step_to(prev, a));
        assert(crate::grid::in_bounds(b, c.0, c.1) && b[c.1][c.0] == 0);
        assert(b[0].len() <= usize::MAX);
        let i2 = choose|i2: int|
            0 <= i2 < cells.len() && #[trigger] cells[i2] == (c.0 as usize, c.1 as usize)
                && lens[i2] <= lens[i] + 1;
        assert(lens[i2] <= j);
    }
}

/// No walk over the four moves of at most `limit` steps is a probe, when
/// every cell reached by a path shorter than `limit` is expanded.
proof fn lemma_probe_blocked(
    b: Seq<Seq<u8>>,
    start: (int, int),
    cells: Seq<(usize, usize)>,
    lens: Seq<int>,
    targets: Seq<u8>,
    p: Seq<Seq<char>>,
    limit: int,
)
    requires
        cells.len() >= 1,
        lens.len() == cells.len(),
        cells[0] == (start.0 as usize, start.1 as usize),
        lens[0] == 0,
        0 <= start.0 <= usize::MAX,
        0 <= start.1 <= usize::MAX,
        b.len() <= usize::MAX,
        forall|y: int| 0 <= y < b.len() ==> #[trigger] b[y].len() <= usize::MAX,
        expanded_below(b, cells, lens, targets, limit),
        crate::planner::uses_only(p, crate::envs::ACTIONS@),
        p.len() <= limit,
    ensures
        !valid_probe(b, start, p, targets),
{
    if valid_probe(b, start, p, targets) {
        let q = p.drop_last();
        let m = q.len() as int;
        lemma_walk_reached(b, start, cells, lens, targets, p, m, limit);
        assert(q.take(m) =~= q);
        let c = walk(start, q);
        let i = choose|i: int|
            0 <= i < cells.len() && #[trigger] cells[i] == (c.0 as usize, c.1 as usize) && lens[i]
                <= m;
        let a = p.last();
        assert(crate::planner::listed(p[p.len() - 1], crate::envs::ACTIONS@));
        let jj = choose|jj: int|
            0 <= jj < crate::envs::ACTIONS@.len() && p[p.len() - 1] == crate::envs::ACTIONS@[jj]@;
        assert(expanded(b, cells, lens, targets, cells[i], lens[i] + 1, 4));
        assert(settled(b, cells, lens, targets, cells[i], lens[i] + 1, crate::envs::ACTIONS@[jj]@));
        assert(p.drop_last() =~= q);
        assert(walk(start, p) == step_to(c, a));
    }
}

/// No walk over the four moves from the player is a discriminating probe
/// for `targets`.
pub open spec fn no_probe(b: Seq<Seq<u8>>, targets: Seq<u8>) -> bool {
    player_of(b) matches Some(s) ==> forall|p: Seq<Seq<char>>|
        crate::planner::uses_only(p, crate::envs::ACTIONS@) ==> !valid_probe(b, s, p, targets)
}

/// No walk over the four moves from the player shorter than `n` steps is a
/// discriminating probe for `targets`.
pub open spec fn no_shorter_probe(b: Seq<Seq<u8>>, targets: Seq<u8>, n: int) -> bool {
    player_of(b) matches Some(s) ==> forall|p: Seq<Seq<char>>|
        crate::planner::uses_only(p, crate::envs::ACTIONS@) && p.len() < n ==> !valid_probe(
            b,
            s,
            p,
            targets,
        )
}

/// The position of move `a` in `ACTIONS` (up, down, left, right), any
/// other text counting as the last.
pub open spec fn action_rank(a: Seq<char>) -> int {
    if a == crate::envs::ACTIONS@[0]@ {
        0
    } else if a == crate::envs::ACTIONS@[1]@ {
        1
    } else if a == crate::envs::ACTIONS@[2]@ {
        2
    } else {
        3
    }
}

/// The place of a walk in breadth-first order over `ACTIONS`: shorter
/// walks come first, and walks of one length are ordered move by move by
/// [`action_rank`] (the walk read as a bijective base-4 numeral).
pub open spec fn bfs_key(path: Seq<Seq<char>>) -> int
    decreases path.len(),
{
    if path.len() == 0 {
        0
    } else {
        4 * bfs_key(path.drop_last()) + action_rank(path.last()) + 1
    }
}

/// No walk over the four moves from the player that is a discriminating
/// probe for `targets` comes before place `key` in breadth-first order.
pub open spec fn first_probe(b: Seq<Seq<u8>>, targets: Seq<u8>, key: int) -> bool {
    player_of(b) matches Some(s) ==> forall|p: Seq<Seq<char>>|
        crate::planner::uses_only(p, crate::envs::ACTIONS@) && valid_probe(b, s, p, targets) ==> key
            <= bfs_key(p)
}

proof fn lemma_action_ranks()
    ensures
        forall|k: int| 0 <= k < 4 ==> action_rank(#[trigger] crate::envs::ACTIONS@[k]@) == k,
{
    reveal_strlit("up");
    reveal_strlit("down");
    reveal_strlit("left");
    reveal_strlit("right");
    assert(crate::envs::ACTIONS@[0]@ == "up"@);
    assert(crate::envs::ACTIONS@[1]@ == "down"@);
    assert(crate::envs::ACTIONS@[2]@ == "left"@);
    assert(crate::envs::ACTIONS@[3]@ == "right"@);
    assert("up"@[0] != "down"@[0] && "up"@[0] != "left"@[0] && "up"@[0] != "right"@[0]);
    assert("down"@[0] != "left"@[0] && "down"@[0] != "right"@[0] && "left"@[0] != "right"@[0]);
}

proof fn lemma_bfs_key_nonneg(path: Seq<Seq<char>>)
    ensures
        bfs_key(path) >= 0,
    decreases path.len(),
{
    if path.len() > 0 {
        lemma_bfs_key_nonneg(path.drop_last());
    }
}

/// A move `a` out of visited cell `i` whose walk comes before the walk
/// `paths[h]` followed by the `k`-th move is settled, when the cells before
/// `h` are expanded in all four directions and cell `h` in its first `k`.
proof fn lemma_pair_settled(
    b: Seq<Seq<u8>>,
    cells: Seq<(usize, usize)>,
    lens: Seq<int>,
    paths: Seq<Seq<Seq<char>>>,
    targets: Seq<u8>,
    h: int,
    k: int,
    i: int,
    a: Seq<char>,
)
    requires
        paths.len() == cells.len(),
        lens.len() == cells.len(),
        forall|x: int, y: int| 0 <= x < y < cells.len() ==> bfs_key(paths[x]) < bfs_key(paths[y]),
        0 <= h < cells.len(),
        0 <= k <= 4,
        forall|x: int| 0 <= x < h ==> expanded(b, cells, lens, targets, #[trigger] cells[x], lens[x] + 1, 4),
        expanded(b, cells, lens, targets, cells[h], lens[h] + 1, k),
        0 <= i < cells.len(),
        crate::planner::listed(a, crate::envs::ACTIONS@),
        4 * bfs_key(paths[i]) + action_rank(a) < 4 * bfs_key(paths[h]) + k,
    ensures
        settled(b, cells, lens, targets, cells[i], lens[i] + 1, a),
{
    lemma_action_ranks();
    let j = choose|j: int| 0 <= j < crate::envs::ACTIONS@.len() && a == crate::envs::ACTIONS@[j]@;
    assert(action_rank(a) == j);
    if i < h {
        assert(expanded(b, cells, lens, targets, cells[i], lens[i] + 1, 4));
        assert(settled(b, cells, lens, targets, cells[i], lens[i] + 1, crate::envs::ACTIONS@[j]@));
    } else if i == h {
        assert(settled(b, cells, lens, targets, cells[i], lens[i] + 1, crate::envs::ACTIONS@[j]@));
    } else {
        assert(bfs_key(paths[h]) < bfs_key(paths[i]));
    }
}

/// Every walk over floor cells from the start that comes before the walk
/// `paths[h]` followed by the `k`-th move ends on a visited cell.
proof fn lemma_front_reached(
    b: Seq<Seq<u8>>,
    start: (int, int),
    cells: Seq<(usize, usize)>,
    lens: Seq<int>,
    paths: Seq<Seq<Seq<char>>>,
    targets: Seq<u8>,
    h: int,
    k: int,
    q: Seq<Seq<char>>,
)
    requires
        paths.len() == cells.len(),
        lens.len() == cells.len(),
        cells.len() >= 1,
        cells[0] == (start.0 as usize, start.1 as usize),
        0 <= start.0 <= usize::MAX,
        0 <= start.1 <= usize::MAX,
        b.len() <= usize::MAX,
        forall|y: int| 0 <= y < b.len() ==> #[trigger] b[y].len() <= usize::MAX,
        forall|x: int, y: int| 0 <= x < y < cells.len() ==> bfs_key(paths[x]) < bfs_key(paths[y]),
        forall|x: int, p: Seq<Seq<char>>|
            0 <= x < cells.len() && crate::planner::uses_only(p, crate::envs::ACTIONS@) && floor_path(b, start, p)
                && walk(start, p) == (cells[x].0 as int, cells[x].1 as int) ==> bfs_key(#[trigger] paths[x])
                <= #[trigger] bfs_key(p),
        0 <= h < cells.len(),
        0 <= k <= 4,
        forall|x: int| 0 <= x < h ==> expanded(b, cells, lens, targets, #[trigger] cells[x], lens[x] + 1, 4),
        expanded(b, cells, lens, targets, cells[h], lens[h] + 1, k),
        crate::planner::uses_only(q, crate::envs::ACTIONS@),
        floor_path(b, start, q),
        bfs_key(q) < 4 * bfs_key(paths[h]) + k + 1,
    ensures
        ({
            let c = walk(start, q);
            0 <= c.0 <= usize::MAX && 0 <= c.1 <= usize::MAX && exists|i: int|
                0 <= i < cells.len() && #[trigger] cells[i] == (c.0 as usize, c.1 as usize)
        }),
    decreases q.len(),
{
    if q.len() == 0 {
        assert(cells[0] == (start.0 as usize, start.1 as usize));
    } else {
        let q1 = q.drop_last();
        let a = q.last();
        assert forall|t: int| 1 <= t <= q1.len() implies {
            let c = #[trigger] walk(start, q1.take(t));
            crate::grid::in_bounds(b, c.0, c.1) && b[c.1][c.0] == 0
        } by {
            assert(q1.take(t) =~= q.take(t));
        }
        assert forall|t: int| 0 <= t < q1.len() implies crate::planner::listed(
            #[trigger] q1[t],
            crate::envs::ACTIONS@,
        ) by {
            assert(q1[t] == q[t]);
        }
        lemma_bfs_key_nonneg(q1);
        lemma_front_reached(b, start, cells, lens, paths, targets, h, k, q1);
        let c1 = walk(start, q1);
        let i = choose|i: int| 0 <= i < cells.len() && #[trigger] cells[i] == (c1.0 as usize, c1.1 as usize);
        assert(bfs_key(paths[i]) <= bfs_key(q1));
        assert(crate::planner::listed(q[q.len() - 1], crate::envs::ACTIONS@));
        lemma_pair_settled(b, cells, lens, paths, targets, h, k, i, a);
        assert(q.take(q.len() as int) =~= q);
        let c = walk(start, q);
        assert(c == step_to(c1, a));
        assert(crate::grid::in_bounds(b, c.0, c.1) && b[c.1][c.0] == 0);
        assert(b[0].len() <= usize::MAX);
        let i2 = choose|i2: int|
            0 <= i2 < cells.len() && #[trigger] cells[i2] == (c.0 as usize, c.1 as usize) && lens[i2] <= lens[i] + 1;
    }
}

/// The action texts of each plan in `paths`.
spec fn path_texts(paths: Seq<Vec<String>>) -> Seq<Seq<Seq<char>>> {
    paths.map_values(|p: Vec<String>| crate::text::texts(p@))
}

/// No probe comes before the walk `paths[h]` followed by the `k`-th move,
/// when the cells before `h` are expanded in all four directions and cell
/// `h` in its first `k`.
proof fn lemma_probe_front(
    b: Seq<Seq<u8>>,
    start: (int, int),
    cells: Seq<(usize, usize)>,
    lens: Seq<int>,
    paths: Seq<Seq<Seq<char>>>,
    targets: Seq<u8>,
    h: int,
    k: int,
    q: Seq<Seq<char>>,
)
    requires
        paths.len() == cells.len(),
        lens.len() == cells.len(),
        cells.len() >= 1,
        cells[0] == (start.0 as usize, start.1 as usize),
        0 <= start.0 <= usize::MAX,
        0 <= start.1 <= usize::MAX,
        b.len() <= usize::MAX,
        forall|y: int| 0 <= y < b.len() ==> #[trigger] b[y].len() <= usize::MAX,
        forall|x: int, y: int| 0 <= x < y < cells.len() ==> bfs_key(paths[x]) < bfs_key(paths[y]),
        forall|x: int, p: Seq<Seq<char>>|
            0 <= x < cells.len() && crate::planner::uses_only(p, crate::envs::ACTIONS@) && floor_path(b, start, p)
                && walk(start, p) == (cells[x].0 as int, cells[x].1 as int) ==> bfs_key(#[trigger] paths[x])
                <= #[trigger] bfs_key(p),
        0 <= h < cells.len(),
        0 <= k <= 4,
        forall|x: int| 0 <= x < h ==> expanded(b, cells, lens, targets, #[trigger] cells[x], lens[x] + 1, 4),
        expanded(b, cells, lens, targets, cells[h], lens[h] + 1, k),
        crate::planner::uses_only(q, crate::envs::ACTIONS@),
        valid_probe(b, start, q, targets),
    ensures
        4 * bfs_key(paths[h]) + k + 1 <= bfs_key(q),
{
    if bfs_key(q) < 4 * bfs_key(paths[h]) + k + 1 {
        let q1 = q.drop_last();
        let a = q.last();
        assert forall|t: int| 0 <= t < q1.len() implies crate::planner::listed(
            #[trigger] q1[t],
            crate::envs::ACTIONS@,
        ) by {
            assert(q1[t] == q[t]);
        }
        lemma_bfs_key_nonneg(q1);
        lemma_front_reached(b, start, cells, lens, paths, targets, h, k, q1);
        let c1 = walk(start, q1);
        let i = choose|i: int| 0 <= i < cells.len() && #[trigger] cells[i] == (c1.0 as usize, c1.1 as usize);
        assert(bfs_key(paths[i]) <= bfs_key(q1));
        assert(crate::planner::listed(q[q.len() - 1], crate::envs::ACTIONS@));
        lemma_pair_settled(b, cells, lens, paths, targets, h, k, i, a);
        let c = walk(start, q);
        assert(c == step_to(c1, a));
    }
}

/// The shortest action sequence (in breadth-first order over `ACTIONS`)
/// through floor cells ending with a step into a cell of one of `targets`:
/// a discriminating probe. None when there is no player or no such walk
/// exists.
pub fn probe_path(state: &Grid, targets: &Vec<u8>) -> (r: Option<Vec<String>>)
    ensures
        r matches Some(p) ==> player_of(board(state)) matches Some(s) && valid_probe(
            board(state),
            s,
            crate::text::texts(p@),
            targets@,
        ) && crate::planner::uses_only(crate::text::texts(p@), crate::envs::ACTIONS@)
            && no_shorter_probe(board(state), targets@, p@.len() as int) && first_probe(
            board(state),
            targets@,
            bfs_key(crate::text::texts(p@)),
        ),
        r is None ==> no_probe(board(state), targets@),
{
    let ghost b = board(state);
    let (px, py) = match locate(state, 1) {
        Some(p) => p,
        None => {
            return None;
        },
    };
    let ghost start = (px as int, py as int);
    if state.len() == 0 {
        return None;
    }
    proof {
        crate::grid::lemma_first_of_some(b, 1);
        assert forall|y: int| 0 <= y < b.len() implies #[trigger] b[y].len() <= usize::MAX by {
            assert(b[y].len() == state@[y].len());
        }
    }
    let w = state[0].len();
    let h = state.len();
    let mut cells: Vec<(usize, usize)> = Vec::new();
    let mut paths: Vec<Vec<String>> = Vec::new();
    cells.push((px, py));
    let empty: Vec<String> = Vec::new();
    assert(crate::text::texts(empty@) =~= Seq::<Seq<char>>::empty());
    paths.push(empty);
    let ghost mut lens: Seq<int> = seq![0int];
    let mut head: usize = 0;
    proof {
        assert(path_texts(paths@)[0] =~= Seq::<Seq<char>>::empty());
        assert forall|i: int, p: Seq<Seq<char>>|
            0 <= i < cells.len() && crate::planner::uses_only(p, crate::envs::ACTIONS@) && floor_path(b, start, p)
                && walk(start, p) == (cells@[i].0 as int, cells@[i].1 as int) implies bfs_key(
            #[trigger] path_texts(paths@)[i],
        ) <= #[trigger] bfs_key(p) by {
            lemma_bfs_key_nonneg(p);
        }
    }
    while head < cells.len()
        invariant
            b == board(state),
            start == (px as int, py as int),
            player_of(b) == Some(start),
            forall|y: int| 0 <= y < b.len() ==> #[trigger] b[y].len() <= usize::MAX,
            w == b[0].len(),
            h == b.len(),
            cells.len() == paths.len(),
            lens.len() == cells.len(),
            cells.len() >= 1,
            cells@[0] == (px, py),
            lens[0] == 0,
            head <= cells.len(),
            cells@.no_duplicates(),
            forall|i: int| 1 <= i < cells.len() ==> (#[trigger] cells@[i]).0 < w && cells@[i].1 < h,
            forall|i: int|
                0 <= i < cells.len() ==> walk(start, crate::text::texts((#[trigger] paths@[i])@)) == (
                    cells@[i].0 as int,
                    cells@[i].1 as int,
                ) && floor_path(b, start, crate::text::texts(paths@[i]@))
                    && crate::planner::uses_only(crate::text::texts(paths@[i]@), crate::envs::ACTIONS@)
                    && lens[i] == paths@[i]@.len(),
            forall|i: int, j: int| 0 <= i <= j < lens.len() ==> lens[i] <= lens[j],
            head >= 1 ==> lens[lens.len() - 1] <= lens[head - 1] + 1,
            head == 0 ==> lens.len() == 1,
            forall|i: int|
                0 <= i < head ==> expanded(b, cells@, lens, targets@, #[trigger] cells@[i], lens[i] + 1, 4),
            forall|i: int, j: int|
                0 <= i < j < cells.len() ==> bfs_key(path_texts(paths@)[i]) < bfs_key(path_texts(paths@)[j]),
            forall|i: int, p: Seq<Seq<char>>|
                0 <= i < cells.len() && crate::planner::uses_only(p, crate::envs::ACTIONS@) && floor_path(b, start, p)
                    && walk(start, p) == (cells@[i].0 as int, cells@[i].1 as int) ==> bfs_key(
                    #[trigger] path_texts(paths@)[i],
                ) <= #[trigger] bfs_key(p),
            head >= 1 ==> forall|i: int|
                0 <= i < cells.len() ==> bfs_key(#[trigger] path_texts(paths@)[i]) <= 4 * bfs_key(
                    path_texts(paths@)[head - 1],
                ) + 4,
        decreases w * h + 1 - head,
    {
        proof {
            lemma_cells_bound(cells@.drop_first(), w as int, h as int);
        }
        let (x, y) = cells[head];
        let path = crate::planner::copy_plan(&paths[head]);
        let ghost pv = crate::text::texts(path@);
        let ghost d = lens[head as int];
        proof {
            if head >= 1 {
                assert(lens[head - 1] <= lens[head as int]);
            }
            let pt = path_texts(paths@);
            assert(pv == pt[head as int]);
            lemma_bfs_key_nonneg(pv);
            assert forall|i: int| 0 <= i < cells.len() implies bfs_key(#[trigger] pt[i]) < 4 * bfs_key(pv) + 1 by {
                if i < head {
                    assert(bfs_key(pt[i]) < bfs_key(pt[head as int]));
                } else if i > head {
                    assert(bfs_key(pt[head - 1]) < bfs_key(pt[head as int]));
                }
            }
        }
        head = head + 1;
        let mut k: usize = 0;
        while k < 4
            invariant
                b == board(state),
                start == (px as int, py as int),
                player_of(b) == Some(start),
                forall|y: int| 0 <= y < b.len() ==> #[trigger] b[y].len() <= usize::MAX,
                w == b[0].len(),
                h == b.len(),
                cells.len() == paths.len(),
                lens.len() == cells.len(),
                cells.len() >= 1,
                cells@[0] == (px, py),
                lens[0] == 0,
                1 <= head <= cells.len(),
                cells@[head - 1] == (x, y),
                lens[head - 1] == d,
                cells@.no_duplicates(),
                forall|i: int| 1 <= i < cells.len() ==> (#[trigger] cells@[i]).0 < w && cells@[i].1 < h,
                forall|i: int|
                    0 <= i < cells.len() ==> walk(start, crate::text::texts((#[trigger] paths@[i])@)) == (
                        cells@[i].0 as int,
                        cells@[i].1 as int,
                    ) && floor_path(b, start, crate::text::texts(paths@[i]@))
                        && crate::planner::uses_only(crate::text::texts(paths@[i]@), crate::envs::ACTIONS@)
                        && lens[i] == paths@[i]@.len(),
                forall|i: int, j: int| 0 <= i <= j < lens.len() ==> lens[i] <= lens[j],
                lens[lens.len() - 1] <= d + 1,
                forall|i: int|
                    0 <= i < head - 1 ==> expanded(
                        b,
                        cells@,
                        lens,
                        targets@,
                        #[trigger] cells@[i],
                        lens[i] + 1,
                        4,
                    ),
                expanded(b, cells@, lens, targets@, (x, y), d + 1, k as int),
                pv == crate::text::texts(path@),
                pv.len() == d,
                walk(start, pv) == (x as int, y as int),
                floor_path(b, start, pv),
                crate::planner::uses_only(pv, crate::envs::ACTIONS@),
                k <= 4,
                pv == path_texts(paths@)[head - 1],
                forall|i: int, j: int|
                    0 <= i < j < cells.len() ==> bfs_key(path_texts(paths@)[i]) < bfs_key(path_texts(paths@)[j]),
                forall|i: int, p: Seq<Seq<char>>|
                    0 <= i < cells.len() && crate::planner::uses_only(p, crate::envs::ACTIONS@) && floor_path(
                        b,
                        start,
                        p,
                    ) && walk(start, p) == (cells@[i].0 as int, cells@[i].1 as int) ==> bfs_key(
                        #[trigger] path_texts(paths@)[i],
                    ) <= #[trigger] bfs_key(p),
                forall|i: int|
                    0 <= i < cells.len() ==> bfs_key(#[trigger] path_texts(paths@)[i]) < 4 * bfs_key(pv) + k + 1,
            decreases 4 - k,
        {
            let a = crate::envs::ACTIONS[k];
            assert(a@ == crate::envs::ACTIONS@[k as int]@);
            let (dx, dy) = crate::envs::delta(a);
            let nx = x as i128 + dx as i128;
            let ny = y as i128 + dy as i128;
            let ghost n = step_to((x as int, y as int), a@);
            assert(n == (nx as int, ny as int));
            if crate::grid::cell_in_bounds(state, nx, ny) {
                let nxu = nx as usize;
                let nyu = ny as usize;
                let v = state[nyu][nxu];
                let mut next = crate::planner::copy_plan(&path);
                next.push(crate::text::owned(a));
                let ghost nv = crate::text::texts(next@);
                proof {
                    assert(nv =~= pv.push(a@));
                    assert(nv.drop_last() =~= pv);
                    assert(walk(start, nv) == (nx as int, ny as int));
                    lemma_action_ranks();
                    assert(bfs_key(nv) == 4 * bfs_key(pv) + k + 1);
                    assert forall|i: int| 0 <= i < nv.len() implies crate::planner::listed(
                        #[trigger] nv[i],
                        crate::envs::ACTIONS@,
                    ) by {
                        if i < pv.len() {
                            assert(nv[i] == pv[i]);
                        } else {
                            assert(nv[i] == crate::envs::ACTIONS@[k as int]@);
                        }
                    }
                }
                if contains_color_list(targets, v) {
                    proof {
                        assert forall|i: int| 0 <= i < cells@.len() && lens[i] < d implies expanded(
                            b,
                            cells@,
                            lens,
                            targets@,
                            #[trigger] cells@[i],
                            lens[i] + 1,
                            4,
                        ) by {
                            if i >= head - 1 {
                                assert(lens[head - 1] <= lens[i]);
                            }
                        }
                        assert(expanded_below(b, cells@, lens, targets@, d));
                        assert forall|q: Seq<Seq<char>>|
                            crate::planner::uses_only(q, crate::envs::ACTIONS@) && valid_probe(b, start, q, targets@)
                            implies bfs_key(nv) <= bfs_key(q) by {
                            lemma_probe_front(
                                b,
                                start,
                                cells@,
                                lens,
                                path_texts(paths@),
                                targets@,
                                head - 1,
                                k as int,
                                q,
                            );
                        }
                        assert forall|q: Seq<Seq<char>>|
                            crate::planner::uses_only(q, crate::envs::ACTIONS@) && q.len() < nv.len()
                            implies !valid_probe(b, start, q, targets@) by {
                            lemma_probe_blocked(b, start, cells@, lens, targets@, q, d);
                        }
                    }
                    return Some(next);
                }
                if v == 0 && !contains_pos(&cells, (nxu, nyu)) {
                    proof {
                        lemma_floor_path_push(b, start, pv, a@);
                    }
                    let ghost old_cells = cells@;
                    let ghost old_lens = lens;
                    let ghost old_pt = path_texts(paths@);
                    proof {
                        assert forall|p: Seq<Seq<char>>|
                            crate::planner::uses_only(p, crate::envs::ACTIONS@) && floor_path(b, start, p) && walk(
                                start,
                                p,
                            ) == (nxu as int, nyu as int) implies bfs_key(nv) <= bfs_key(p) by {
                            if bfs_key(p) < bfs_key(nv) {
                                lemma_front_reached(b, start, cells@, lens, old_pt, targets@, head - 1, k as int, p);
                                let i = choose|i: int|
                                    0 <= i < cells@.len() && #[trigger] cells@[i] == (nxu, nyu);
                                assert(cells@.contains((nxu, nyu)));
                            }
                        }
                    }
                    cells.push((nxu, nyu));
                    paths.push(next);
                    proof {
                        lens = lens.push(d + 1);
                        assert(path_texts(paths@) =~= old_pt.push(nv));
                        assert forall|i: int, j: int| 0 <= i < cells@.len() && 0 <= j < cells@.len() && i != j implies cells@[i] != cells@[j] by {
                            if i < old_cells.len() && j < old_cells.len() {
                                assert(old_cells[i] != old_cells[j]);
                            } else if i == old_cells.len() {
                                assert(!old_cells.contains(cells@[i]));
                                assert(cells@[j] == old_cells[j]);
                            } else {
                                assert(!old_cells.contains(cells@[j]));
                                assert(cells@[i] == old_cells[i]);
                            }
                        }
                        assert forall|i: int| 0 <= i < old_cells.len() implies #[trigger] cells@[i]
                            == old_cells[i] && lens[i] == old_lens[i] by {}
                        assert forall|i: int| 0 <= i < head - 1 implies expanded(
                            b,
                            cells@,
                            lens,
                            targets@,
                            #[trigger] cells@[i],
                            lens[i] + 1,
                            4,
                        ) by {
                            assert(cells@[i] == old_cells[i]);
                            lemma_settled_grow(
                                b,
                                old_cells,
                                old_lens,
                                cells@,
                                lens,
                                targets@,
                                old_cells[i],
                                old_lens[i] + 1,
                                4,
                            );
                        }
                        lemma_settled_grow(b, old_cells, old_lens, cells@, lens, targets@, (x, y), d + 1, k as int);
                        let last = cells@.len() - 1;
                        assert(cells@[last] == (nxu, nyu) && lens[last] <= d + 1);
                        assert(reached_within(cells@, lens, (nxu, nyu), d + 1));
                        assert forall|i: int, j: int| 0 <= i <= j < lens.len() implies lens[i] <= lens[j] by {
                            if j == lens.len() - 1 && i < j {
                                assert(old_lens[i] <= old_lens[old_lens.len() - 1]);
                            }
                        }
                    }
                } else {
                    proof {
                        if v == 0 {
                            assert(cells@.contains((nxu, nyu)));
                            let i = choose|i: int| 0 <= i < cells@.len() && cells@[i] == (nxu, nyu);
                            assert(lens[i] <= lens[lens.len() - 1]);
                            assert(reached_within(cells@, lens, (nxu, nyu), d + 1));
                        }
                    }
                }
                assert(settled(b, cells@, lens, targets@, (x, y), d + 1, a@));
            }
            assert(settled(b, cells@, lens, targets@, (x, y), d + 1, crate::envs::ACTIONS@[k as int]@));
            k = k + 1;
        }
        proof {
            assert forall|i: int| 0 <= i < head implies expanded(
                b,
                cells@,
                lens,
                targets@,
                #[trigger] cells@[i],
                lens[i] + 1,
                4,
            ) by {
                if i == head - 1 {
                    assert(cells@[i] == (x, y));
                }
            }
            if head < cells.len() {
                assert(lens[head - 1] <= lens[head as int]);
            }
        }
    }
    proof {
        assert forall|p: Seq<Seq<char>>| crate::planner::uses_only(
            p,
            crate::envs::ACTIONS@,
        ) implies !valid_probe(b, start, p, targets@) by {
            let limit = p.len() as int;
            assert forall|i: int| 0 <= i < cells@.len() && lens[i] < limit implies expanded(
                b,
                cells@,
                lens,
                targets@,
                #[trigger] cells@[i],
                lens[i] + 1,
                4,
            ) by {}
            lemma_probe_blocked(b, start, cells@, lens, targets@, p, limit);
        }
    }
    None
}

fn contains_color_list(v: &Vec<u8>, c: u8) -> (r: bool)
    ensures
        r == v@.contains(c),
{
    let mut i: usize = 0;
    while i < v.len()
        invariant
            i <= v.len(),
            forall|j: int| 0 <= j < i ==> v@[j] != c,
        decreases v.len() - i,
    {
        if v[i] == c {
            assert(v@[i as int] == c);
            return true;
        }
        i = i + 1;
    }
    false
}

/// The name a semantics prints as.
pub open spec fn sem_name(s: Semantics) -> Seq<char> {
    match s {
        Semantics::Blocking => "Blocking"@,
        Semantics::Passable => "Passable"@,
        Semantics::Lethal => "Lethal"@,
    }
}

/// The entries `k: Name` of a semantics map for keys below `n`, in
/// increasing key order.
pub open spec fn sem_entries_below(m: Map<u8, Semantics>, n: int) -> Seq<Seq<char>>
    decreases n,
{
    if n <= 0 {
        Seq::empty()
    } else if m.contains_key((n - 1) as u8) {
        sem_entries_below(m, n - 1).push(decimal((n - 1) as nat) + ": "@ + sem_name(m[(n - 1) as u8]))
    } else {
        sem_entries_below(m, n - 1)
    }
}

/// A semantics map as `Debug` prints it: `{5: Blocking, 7: Passable}`.
pub open spec fn sem_map_text(m: Map<u8, Semantics>) -> Seq<char> {
    "{"@ + join(sem_entries_below(m, 256), ", "@) + "}"@
}

/// The candidates that predict every recorded transition, in order.
pub open spec fn fitting(cands: Seq<Map<u8, Semantics>>, tl: Seq<crate::timeline::Record>) -> Seq<Map<u8, Semantics>>
    decreases cands.len(),
{
    if cands.len() == 0 {
        Seq::empty()
    } else if fits_history(cands.last(), tl) {
        fitting(cands.drop_last(), tl).push(cands.last())
    } else {
        fitting(cands.drop_last(), tl)
    }
}

/// The colours among `colors` on which the candidates disagree, in order.
pub open spec fn ambiguous_colors_spec(cands: Seq<Map<u8, Semantics>>, colors: Seq<u8>) -> Seq<u8>
    decreases colors.len(),
{
    if colors.len() == 0 {
        Seq::empty()
    } else if ambiguous(cands, colors.last()) {
        ambiguous_colors_spec(cands, colors.drop_last()).push(colors.last())
    } else {
        ambiguous_colors_spec(cands, colors.drop_last())
    }
}

/// The description recorded when the toggle deliberator installs `best`.
pub open spec fn hypothesis_text(best: Map<u8, Semantics>, n: nat, steps: nat) -> Seq<char> {
    "mechanism hypothesis "@ + sem_map_text(best) + " ("@ + decimal(n) + " candidate(s) consistent with "@
        + decimal(steps) + "-step history)"@
}

/// The note of a discriminating probe.
pub open spec fn probe_note_text(amb: Seq<u8>, probe: Seq<Seq<char>>, n: nat) -> Seq<char> {
    "Ambiguity over colors "@ + list_text(amb) + ": committing discriminating probe "@ + quoted_list(
        probe,
    ) + "; outcomes differ across "@ + decimal(n) + " surviving candidates."@
}

/// The note handing a settled mechanism to the planner.
pub open spec fn settled_note_text(best: Map<u8, Semantics>, backtest: Seq<char>) -> Seq<char> {
    "Unique-enough mechanism "@ + sem_map_text(best) + "; backtest "@ + backtest
        + "; handing plan to in-model BFS."@
}

fn push_sem_name(s: &mut String, v: Semantics)
    ensures
        final(s)@ == old(s)@ + sem_name(v),
{
    match v {
        Semantics::Blocking => push_str(s, "Blocking"),
        Semantics::Passable => push_str(s, "Passable"),
        Semantics::Lethal => push_str(s, "Lethal"),
    }
}

/// Appends a semantics map in `Debug` form.
fn push_sem_map(s: &mut String, m: &BTreeMap<u8, Semantics>)
    ensures
        final(s)@ == old(s)@ + sem_map_text(m@),
{
    let ghost start = s@;
    push_str(s, "{");
    let mut first = true;
    let mut c: u16 = 0;
    while c < 256
        invariant
            c <= 256,
            first == (sem_entries_below(m@, c as int).len() == 0),
            s@ == start + "{"@ + join(sem_entries_below(m@, c as int), ", "@),
        decreases 256 - c,
    {
        let cu = c as u8;
        match m.get(&cu) {
            Some(v) => {
                if !first {
                    push_str(s, ", ");
                }
                push_decimal(s, c as usize);
                push_str(s, ": ");
                push_sem_name(s, *v);
                first = false;
                proof {
                    let e = sem_entries_below(m@, c + 1);
                    assert(e.drop_last() == sem_entries_below(m@, c as int));
                }
                assert(s@ =~= start + "{"@ + join(sem_entries_below(m@, c + 1), ", "@));
            },
            None => {},
        }
        c = c + 1;
    }
    push_str(s, "}");
    assert(s@ =~= old(s)@ + sem_map_text(m@));
}

impl ToggleDeliberator {
    /// Whether a semantics hypothesis predicts every recorded transition.
    fn consistent(sem: &BTreeMap<u8, Semantics>, timeline: &Timeline) -> (r: bool)
        ensures
            r == fits_history(sem@, timeline@),
    {
        let n = timeline.len();
        let mut i: usize = 0;
        while i < n
            invariant
                n == timeline@.len(),
                i <= n,
                forall|k: int|
                    0 <= k < i ==> crate::backtest::consistent(
                        semantics_step(sem@, #[trigger] timeline@[k].before, timeline@[k].action),
                        timeline@[k],
                    ),
            decreases n - i,
        {
            let t = match timeline.get(i) {
                Some(t) => t,
                None => {
                    return false;
                },
            };
            let p = predict(sem, &t.state_before, t.action.as_str());
            assert(t@ == timeline@[i as int]);
            if p.level_up != t.level_up || p.dead != t.dead || p.win != t.win {
                assert(!crate::backtest::consistent(
                    semantics_step(sem@, timeline@[i as int].before, timeline@[i as int].action),
                    timeline@[i as int],
                ));
                return false;
            }
            if !t.terminal() && !crate::grid::grids_equal(&p.grid, &t.state_after) {
                assert(!crate::backtest::consistent(
                    semantics_step(sem@, timeline@[i as int].before, timeline@[i as int].action),
                    timeline@[i as int],
                ));
                return false;
            }
            i = i + 1;
        }
        true
    }

    /// The unknown colours on which the surviving candidates disagree.
    fn ambiguous_colors(&self) -> (r: Vec<u8>)
        ensures
            r@ == ambiguous_colors_spec(self.candidate_maps(), self.colors()),
    {
        proof {
            use_type_invariant(self);
        }
        let ghost cands = self.candidate_maps();
        let mut out: Vec<u8> = Vec::new();
        let mut k: usize = 0;
        while k < self.unknown_colors.len()
            invariant
                cands == self.candidate_maps(),
                covers(cands, self.colors()),
                k <= self.unknown_colors.len(),
                out@ == ambiguous_colors_spec(cands, self.colors().take(k as int)),
            decreases self.unknown_colors.len() - k,
        {
            let c = self.unknown_colors[k];
            let mut differs = false;
            if self.candidates.len() > 0 {
                let first = match self.candidates[0].get(&c) {
                    Some(v) => *v,
                    None => Semantics::Blocking,
                };
                assert(cands[0].contains_key(self.colors()[k as int]));
                assert(first == cands[0][c]);
                let mut j: usize = 1;
                while j < self.candidates.len()
                    invariant
                        cands == self.candidate_maps(),
                        covers(cands, self.colors()),
                        k < self.unknown_colors.len(),
                        c == self.colors()[k as int],
                        cands.len() > 0,
                        first == cands[0][c],
                        1 <= j <= cands.len(),
                        differs == exists|i: int| 0 <= i < j && #[trigger] cands[i][c] != first,
                    decreases self.candidates.len() - j,
                {
                    assert(cands[j as int].contains_key(self.colors()[k as int]));
                    let v = match self.candidates[j].get(&c) {
                        Some(v) => *v,
                        None => Semantics::Blocking,
                    };
                    if v != first {
                        differs = true;
                    }
                    j = j + 1;
                }
                proof {
                    if ambiguous(cands, c) {
                        let (i1, i2) = choose|i: int, j: int| 0 <= i < cands.len() && 0 <= j < cands.len() && #[trigger] cands[i][c] != #[trigger] cands[j][c];
                        if cands[i1][c] == first {
                            assert(cands[i2][c] != first);
                        }
                    }
                    if differs {
                        let i = choose|i: int| 0 <= i < cands.len() && #[trigger] cands[i][c] != first;
                        assert(cands[i][c] != cands[0][c]);
                    }
                }
            }
            assert(self.colors().take(k + 1).drop_last() =~= self.colors().take(k as int));
            if differs {
                out.push(c);
            }
            k = k + 1;
        }
        assert(self.colors().take(self.unknown_colors.len() as int) =~= self.colors());
        out
    }
}

/// The note of a deliberation that found every candidate refuted.
pub open spec fn refuted_note_text() -> Seq<char> {
    "no candidate mechanism is consistent with the recorded history"@
}

impl Deliberator for ToggleDeliberator {
    closed spec fn spec_calls(&self) -> Seq<DeliberationCall> {
        self.calls@
    }

    fn deliberate(
        &mut self,
        current: &Grid,
        model: &mut WorldModel,
        timeline: &Timeline,
        backtest: &BacktestReport,
        counterexample: Option<&Transition>,
    ) -> (d: Deliberation)
        ensures
            final(self).colors() == old(self).colors(),
            final(self).candidate_maps() == fitting(old(self).candidate_maps(), timeline@),
            fitting(old(self).candidate_maps(), timeline@).len() == 0 ==> {
                &&& *final(model) == *old(model)
                &&& d.intent == Intent::Experiment
                &&& d.actions@.len() == 0
                &&& d.note@ == refuted_note_text()
            },
            fitting(old(self).candidate_maps(), timeline@).len() > 0 ==> {
                let cands = fitting(old(self).candidate_maps(), timeline@);
                let best = cands[0];
                let amb = ambiguous_colors_spec(cands, old(self).colors());
                &&& final(model).step_rule matches StepRule::Semantics(m) && m@ == best
                &&& final(model).goal_rule == old(model).goal_rule
                &&& final(model).revision == old(model).revision + 1
                &&& final(model).history.deep_view() == old(model).history.deep_view().push(
                    hypothesis_text(best, cands.len(), timeline@.len()),
                )
                &&& d.intent == Intent::Experiment ==> {
                    &&& amb.len() > 0
                    &&& player_of(board(current)) matches Some(s) && valid_probe(
                        board(current),
                        s,
                        texts(d.actions@),
                        amb,
                    )
                    &&& crate::planner::uses_only(texts(d.actions@), crate::envs::ACTIONS@)
                    &&& no_shorter_probe(board(current), amb, d.actions@.len() as int)
                    &&& first_probe(board(current), amb, bfs_key(texts(d.actions@)))
                    &&& d.note@ == probe_note_text(amb, texts(d.actions@), cands.len())
                }
                &&& d.intent == Intent::Plan ==> {
                    &&& d.actions@.len() == 0
                    &&& d.note@ == settled_note_text(best, summary_text(backtest@))
                    &&& no_probe(board(current), amb)
                }
            },
    {
        proof {
            use_type_invariant(&*self);
        }
        let ghost calls0 = self.calls@;
        let ghost model0 = *model;
        let ghost cands0 = self.candidate_maps();
        let ghost colors = self.colors();
        let mut kept: Vec<BTreeMap<u8, Semantics>> = Vec::new();
        let mut j: usize = 0;
        assert(cands0.take(0) =~= Seq::<Map<u8, Semantics>>::empty());
        assert(map_views(kept@) =~= fitting(cands0.take(0), timeline@));
        while j < self.candidates.len()
            invariant
                cands0 == self.candidate_maps(),
                colors == self.colors(),
                covers(cands0, colors),
                j <= self.candidates.len(),
                map_views(kept@) == fitting(cands0.take(j as int), timeline@),
                covers(map_views(kept@), colors),
            decreases self.candidates.len() - j,
        {
            assert(cands0.take(j + 1).drop_last() =~= cands0.take(j as int));
            assert(cands0.take(j + 1).last() == self.candidates@[j as int]@);
            if Self::consistent(&self.candidates[j], timeline) {
                let m = self.candidates[j].clone();
                let ghost before = kept@;
                kept.push(m);
                proof {
                    assert(map_views(kept@) =~= map_views(before).push(m@));
                    assert forall|a: int, b: int|
                        0 <= a < map_views(kept@).len() && 0 <= b < colors.len() implies #[trigger] map_views(
                        kept@,
                    )[a].contains_key(#[trigger] colors[b]) by {
                        if a < before.len() {
                            assert(map_views(kept@)[a] == map_views(before)[a]);
                        } else {
                            assert(cands0[j as int].contains_key(colors[b]));
                        }
                    }
                }
            }
            j = j + 1;
        }
        assert(cands0.take(self.candidates.len() as int) =~= cands0);
        self.candidates = kept;
        let ghost cands = self.candidate_maps();
        if self.candidates.len() == 0 {
            let d = Deliberation {
                actions: Vec::new(),
                intent: Intent::Experiment,
                note: owned("no candidate mechanism is consistent with the recorded history"),
            };
            self.calls = Ghost(
                calls0.push(call_record(current, model0, timeline, backtest, counterexample, *model, &d)),
            );
            return d;
        }
        let best = self.candidates[0].clone();
        let mut desc = String::new();
        push_str(&mut desc, "mechanism hypothesis ");
        push_sem_map(&mut desc, &best);
        push_str(&mut desc, " (");
        push_decimal(&mut desc, self.candidates.len());
        push_str(&mut desc, " candidate(s) consistent with ");
        push_decimal(&mut desc, timeline.len());
        push_str(&mut desc, "-step history)");
        let installed = best.clone();
        model.revise(Some(StepRule::Semantics(installed)), None, desc.as_str());
        let amb = self.ambiguous_colors();
        if amb.len() > 0 {
            match probe_path(current, &amb) {
                Some(probe) => {
                    let mut note = String::new();
                    push_str(&mut note, "Ambiguity over colors ");
                    push_color_list(&mut note, &amb);
                    push_str(&mut note, ": committing discriminating probe ");
                    push_quoted_list(&mut note, &probe);
                    push_str(&mut note, "; outcomes differ across ");
                    push_decimal(&mut note, self.candidates.len());
                    push_str(&mut note, " surviving candidates.");
                    let d = Deliberation { actions: probe, intent: Intent::Experiment, note };
                    self.calls = Ghost(
                        calls0.push(call_record(current, model0, timeline, backtest, counterexample, *model, &d)),
                    );
                    return d;
                },
                None => {},
            }
        }
        let mut note = String::new();
        push_str(&mut note, "Unique-enough mechanism ");
        push_sem_map(&mut note, &best);
        push_str(&mut note, "; backtest ");
        let summary = backtest.summary();
        push_str(&mut note, summary.as_str());
        push_str(&mut note, "; handing plan to in-model BFS.");
        let d = Deliberation { actions: Vec::new(), intent: Intent::Plan, note };
        self.calls = Ghost(calls0.push(call_record(current, model0, timeline, backtest, counterexample, *model, &d)));
        d
    }
}

/// The cells where two boards differ (within both), mapped to the value the
/// second board holds there.
pub open spec fn grid_diff(p: Seq<Seq<u8>>, o: Seq<Seq<u8>>) -> Map<(usize, usize), u8> {
    diff_before(p, o, (p.len() + o.len()) as int, 0)
}

/// The part of `grid_diff(p, o)` in rows above `y` and in row `y` left of `x`.
pub open spec fn diff_before(p: Seq<Seq<u8>>, o: Seq<Seq<u8>>, y: int, x: int) -> Map<(usize, usize), u8> {
    Map::new(
        |k: (usize, usize)|
            k.1 < p.len() && k.1 < o.len() && k.0 < p[k.1 as int].len() && k.0 < o[k.1 as int].len()
                && p[k.1 as int][k.0 as int] != o[k.1 as int][k.0 as int] && (k.1 < y || (k.1 == y
                && k.0 < x)),
        |k: (usize, usize)| o[k.1 as int][k.0 as int],
    )
}

/// Records, for every cell where `pred` and `after` differ, the value that
/// `after` holds.
fn learn_reflow(reflow: &mut BTreeMap<(usize, usize), u8>, pred: &Grid, after: &Grid)
    ensures
        final(reflow)@ == old(reflow)@.union_prefer_right(grid_diff(board(pred), board(after))),
{
    let ghost r0 = reflow@;
    let ghost p = board(pred);
    let ghost o = board(after);
    let h = if pred.len() < after.len() { pred.len() } else { after.len() };
    assert(r0.union_prefer_right(diff_before(p, o, 0, 0)) =~= r0);
    let mut y: usize = 0;
    while y < h
        invariant
            p == board(pred),
            o == board(after),
            h <= pred.len(),
            h <= after.len(),
            h == pred.len() || h == after.len(),
            y <= h,
            reflow@ == r0.union_prefer_right(diff_before(p, o, y as int, 0)),
        decreases h - y,
    {
        let w = if pred[y].len() < after[y].len() { pred[y].len() } else { after[y].len() };
        let mut x: usize = 0;
        while x < w
            invariant
                p == board(pred),
                o == board(after),
                y < h,
                h <= pred.len(),
                h <= after.len(),
                w <= pred[y as int].len(),
                w <= after[y as int].len(),
                w == pred[y as int].len() || w == after[y as int].len(),
                x <= w,
                reflow@ == r0.union_prefer_right(diff_before(p, o, y as int, x as int)),
            decreases w - x,
        {
            let ghost before = reflow@;
            if pred[y][x] != after[y][x] {
                reflow.insert((x, y), after[y][x]);
            }
            assert(reflow@ =~= r0.union_prefer_right(diff_before(p, o, y as int, x + 1)));
            x = x + 1;
        }
        assert(diff_before(p, o, y as int, x as int) =~= diff_before(p, o, y + 1, 0));
        y = y + 1;
    }
    assert(diff_before(p, o, y as int, 0) =~= grid_diff(p, o));
}

/// Lexicographic order on cells, first by `x`, then by `y`.
pub open spec fn cell_less(a: (usize, usize), b: (usize, usize)) -> bool {
    a.0 < b.0 || (a.0 == b.0 && a.1 < b.1)
}

/// `s` lists the entries of `m` once each, in increasing order of cells.
pub open spec fn enumerates(m: Map<(usize, usize), u8>, s: Seq<((usize, usize), u8)>) -> bool {
    &&& s.len() == m.dom().len()
    &&& forall|i: int| 0 <= i < s.len() ==> m.contains_key(#[trigger] s[i].0) && m[s[i].0] == s[i].1
    &&& forall|i: int, j: int| 0 <= i < j < s.len() ==> cell_less(#[trigger] s[i].0, #[trigger] s[j].0)
}

proof fn lemma_pair_order(a: (usize, usize), b: (usize, usize))
    requires
        vstd::std_specs::cmp::OrdSpec::cmp_spec(&a, &b) is Less,
    ensures
        cell_less(a, b),
{
}

/// The entries of a learned reflow in increasing order of cells.
fn reflow_entries(m: &BTreeMap<(usize, usize), u8>) -> (r: Vec<((usize, usize), u8)>)
    ensures
        enumerates(m@, r@),
{
    let mut out: Vec<((usize, usize), u8)> = Vec::new();
    let entries = m.iter();
    let ghost v = vstd::std_specs::iter::IteratorSpec::remaining(&entries);
    assert(v.len() == m@.dom().len());
    for kv in it: entries
        invariant
            out.len() == it.index(),
            it.seq() == v,
            forall|i: int| 0 <= i < out.len() ==> out@[i] == (*it.seq()[i].0, *it.seq()[i].1),
    {
        let (k, w) = kv;
        out.push((*k, *w));
    }
    proof {
        let keys = v.map_values(|kv: (&(usize, usize), &u8)| *kv.0);
        assert(vstd::std_specs::btree::increasing_seq(keys));
        assert forall|i: int| 0 <= i < out@.len() implies m@.contains_key(#[trigger] out@[i].0)
            && m@[out@[i].0] == out@[i].1 by {
            assert(m@.contains_key(*v[i].0));
        }
        assert forall|i: int, j: int| 0 <= i < j < out@.len() implies cell_less(
            #[trigger] out@[i].0,
            #[trigger] out@[j].0,
        ) by {
            assert(keys[i] == *v[i].0);
            assert(keys[j] == *v[j].0);
            lemma_pair_order(keys[i], keys[j]);
        }
    }
    out
}

/// A cell as `Debug` prints a pair: `(x, y)`.
pub open spec fn cell_text(c: (usize, usize)) -> Seq<char> {
    "("@ + decimal(c.0 as nat) + ", "@ + decimal(c.1 as nat) + ")"@
}

/// The cells of reflow entries as `Debug` prints a list: `[(x, y), ...]`.
pub open spec fn cells_text(s: Seq<((usize, usize), u8)>) -> Seq<char> {
    "["@ + join(s.map_values(|e: ((usize, usize), u8)| cell_text(e.0)), ", "@) + "]"@
}

/// Reflow entries as `Debug` prints a map: `{(x, y): v, ...}`.
pub open spec fn reflow_text(s: Seq<((usize, usize), u8)>) -> Seq<char> {
    "{"@ + join(
        s.map_values(|e: ((usize, usize), u8)| cell_text(e.0) + ": "@ + decimal(e.1 as nat)),
        ", "@,
    ) + "}"@
}

fn push_cell(s: &mut String, c: (usize, usize))
    ensures
        final(s)@ == old(s)@ + cell_text(c),
{
    push_str(s, "(");
    push_decimal(s, c.0);
    push_str(s, ", ");
    push_decimal(s, c.1);
    push_str(s, ")");
    assert(s@ =~= old(s)@ + cell_text(c));
}

/// Appends the cells of `entries` in `Debug` list form.
fn push_cells(s: &mut String, entries: &Vec<((usize, usize), u8)>)
    ensures
        final(s)@ == old(s)@ + cells_text(entries@),
{
    let ghost start = s@;
    let ghost items = entries@.map_values(|e: ((usize, usize), u8)| cell_text(e.0));
    push_str(s, "[");
    let mut i: usize = 0;
    while i < entries.len()
        invariant
            i <= entries.len(),
            items == entries@.map_values(|e: ((usize, usize), u8)| cell_text(e.0)),
            s@ == start + "["@ + join(items.take(i as int), ", "@),
        decreases entries.len() - i,
    {
        if i > 0 {
            push_str(s, ", ");
        }
        push_cell(s, entries[i].0);
        assert(items.take(i + 1).drop_last() =~= items.take(i as int));
        i = i + 1;
        assert(s@ =~= start + "["@ + join(items.take(i as int), ", "@));
    }
    assert(items.take(entries.len() as int) =~= items);
    push_str(s, "]");
    assert(s@ =~= old(s)@ + cells_text(entries@));
}

/// Appends `entries` in `Debug` map form.
fn push_reflow(s: &mut String, entries: &Vec<((usize, usize), u8)>)
    ensures
        final(s)@ == old(s)@ + reflow_text(entries@),
{
    let ghost start = s@;
    let ghost items = entries@.map_values(
        |e: ((usize, usize), u8)| cell_text(e.0) + ": "@ + decimal(e.1 as nat),
    );
    push_str(s, "{");
    let mut i: usize = 0;
    while i < entries.len()
        invariant
            i <= entries.len(),
            items == entries@.map_values(
                |e: ((usize, usize), u8)| cell_text(e.0) + ": "@ + decimal(e.1 as nat),
            ),
            s@ == start + "{"@ + join(items.take(i as int), ", "@),
        decreases entries.len() - i,
    {
        if i > 0 {
            push_str(s, ", ");
        }
        let (c, v) = entries[i];
        push_cell(s, c);
        push_str(s, ": ");
        push_decimal(s, v as usize);
        assert(items.take(i + 1).drop_last() =~= items.take(i as int));
        i = i + 1;
        assert(s@ =~= start + "{"@ + join(items.take(i as int), ", "@));
    }
    assert(items.take(entries.len() as int) =~= items);
    push_str(s, "}");
    assert(s@ =~= old(s)@ + reflow_text(entries@));
}

fn copy_cells(cells: &Vec<(usize, usize)>) -> (r: Vec<(usize, usize)>)
    ensures
        r@ == cells@,
{
    let mut r: Vec<(usize, usize)> = Vec::new();
    let mut i: usize = 0;
    while i < cells.len()
        invariant
            i <= cells.len(),
            r@ == cells@.take(i as int),
        decreases cells.len() - i,
    {
        r.push(cells[i]);
        i = i + 1;
        assert(r@ =~= cells@.take(i as int));
    }
    assert(cells@.take(cells.len() as int) =~= cells@);
    r
}

/// The description of the first cart representation installed.
pub open spec fn sprite_install_text() -> Seq<char> {
    "initial representation: static board + cart sprite; walls immutable"@
}

/// The description of the unified representation, naming the learned cells.
pub open spec fn unified_install_text(s: Seq<((usize, usize), u8)>) -> Seq<char> {
    "representation revision: cart unified as a board cell; dock event rewrites cells "@
        + cells_text(s) + " to observed values (learned from counterexample diff)"@
}

/// The note of the deliberation that learned the reflow.
pub open spec fn learned_note_text(s: Seq<((usize, usize), u8)>) -> Seq<char> {
    "Counterexample at dock: sprite-overlay representation cannot express the board reflow. Revised representation jointly with rules; learned reflow "@
        + reflow_text(s) + "."@
}

/// The note of an experiment that drives the cart onto a dock.
pub open spec fn dock_probe_note_text(bfs: Seq<char>) -> Seq<char> {
    "Goal unreachable under current model; driving cart to dock as observation point ("@ + bfs
        + ")."@
}

/// The note of a deliberation that hands over to planning.
pub open spec fn planning_note_text(backtest: Seq<char>) -> Seq<char> {
    "Backtest "@ + backtest + "; planning."@
}

/// Priors: movement and push mechanics. Initial representation: static
/// board with a cart sprite. The dock counterexample forces unification:
/// the cart is a board cell and docking rewrites cells learned from the
/// observed diff, after which backtest certifies the revised program.
pub struct CartDeliberator {
    pub dock_cells: Vec<(usize, usize)>,
    pub reflow: BTreeMap<(usize, usize), u8>,
    pub unified: bool,
    /// Every deliberation so far.
    pub calls: Ghost<Seq<DeliberationCall>>,
}

/// The rule is the cart representation over these docks, reflow and mode.
pub open spec fn is_cart_rule(
    r: StepRule,
    docks: Seq<(usize, usize)>,
    reflow: Map<(usize, usize), u8>,
    unified: bool,
) -> bool {
    r matches StepRule::Cart { dock_cells: d, reflow: m, unified: u } && d@ == docks && m@ == reflow
        && u == unified
}

impl CartDeliberator {
    /// The dock cells found on the initial board.
    pub open spec fn docks(&self) -> Seq<(usize, usize)> {
        self.dock_cells@
    }

    /// Finds the dock cells (colour 6) of the initial board.
    pub fn new(initial_grid: &Grid) -> (d: Self)
        ensures
            d.docks() == crate::envs::positions(
                board(initial_grid),
                6,
                board(initial_grid).len() as int,
            ),
            d.reflow@ == Map::<(usize, usize), u8>::empty(),
            !d.unified,
            d.spec_calls().len() == 0,
    {
        CartDeliberator {
            dock_cells: crate::envs::find_color(initial_grid, 6),
            reflow: BTreeMap::new(),
            unified: false,
            calls: Ghost(Seq::empty()),
        }
    }

    /// Installs the cart representation in its present state.
    fn install(&self, model: &mut WorldModel, description: &str)
        requires
            old(model).revision < u32::MAX,
        ensures
            is_cart_rule(final(model).step_rule, self.docks(), self.reflow@, self.unified),
            final(model).goal_rule == old(model).goal_rule,
            final(model).revision == old(model).revision + 1,
            final(model).history.deep_view() == old(model).history.deep_view().push(description@),
    {
        let rule = StepRule::Cart {
            dock_cells: copy_cells(&self.dock_cells),
            reflow: self.reflow.clone(),
            unified: self.unified,
        };
        model.revise(Some(rule), None, description);
    }

    /// A cart stands on one of the dock cells.
    fn cart_docked(&self, state: &Grid) -> (r: bool)
        ensures
            r == crate::model::docked_spec(self.docks(), board(state)),
    {
        let mut i: usize = 0;
        while i < self.dock_cells.len()
            invariant
                i <= self.dock_cells.len(),
                forall|j: int|
                    0 <= j < i ==> !(on_board(
                        board(state),
                        #[trigger] self.dock_cells@[j].0 as int,
                        self.dock_cells@[j].1 as int,
                    ) && board(state)[self.dock_cells@[j].1 as int][self.dock_cells@[j].0 as int]
                        == 4),
            decreases self.dock_cells.len() - i,
        {
            let (x, y) = self.dock_cells[i];
            if cell_on_board(state, x as i128, y as i128) && state[y][x] == 4 {
                assert(self.dock_cells@[i as int].0 == x);
                return true;
            }
            i = i + 1;
        }
        false
    }
}

/// The history after the first install of a deliberation: the sprite
/// representation is recorded when the model has not been revised yet.
pub open spec fn after_first_install(model: WorldModel) -> Seq<Seq<char>> {
    if model.revision == 0 {
        model.history.deep_view().push(sprite_install_text())
    } else {
        model.history.deep_view()
    }
}

/// A model predicts with the sprite-overlay cart representation over these
/// docks and reflow and has "a cart stands on a dock" as its goal.
pub open spec fn is_dock_probe_model(
    m: WorldModel,
    docks: Seq<(usize, usize)>,
    reflow: Map<(usize, usize), u8>,
) -> bool {
    &&& is_cart_rule(m.step_rule, docks, reflow, false)
    &&& m.goal_rule matches GoalRule::Docked(g) && g@ == docks
}

/// `plan` is a search result under the dock-probe model from `start`: it
/// reaches a docked cart (or a flagged step) inside that model, and `note`
/// reports the search.
pub open spec fn drives_cart_to_dock(
    docks: Seq<(usize, usize)>,
    reflow: Map<(usize, usize), u8>,
    start: Seq<Seq<u8>>,
    plan: Seq<Seq<char>>,
    note: Seq<char>,
) -> bool {
    exists|aux: WorldModel, via: GoalVia, e: nat, n: nat|
        #![trigger is_dock_probe_model(aux, docks, reflow), bfs_summary_text(Some(plan), Some(via), e, n)]
        is_dock_probe_model(aux, docks, reflow) && plan_reaches(aux, start, plan, via) && note
            == dock_probe_note_text(bfs_summary_text(Some(plan), Some(via), e, n))
}

/// The search for a docked cart under the dock-probe model from `start`
/// found nothing: it spent its budget of expansions, or no plan over the
/// four moves reaches a docked cart (or a flagged step) inside that model.
pub open spec fn dock_search_failed(
    docks: Seq<(usize, usize)>,
    reflow: Map<(usize, usize), u8>,
    start: Seq<Seq<u8>>,
) -> bool {
    exists|aux: WorldModel, e: nat|
        #![trigger is_dock_probe_model(aux, docks, reflow), dock_budget_spent(e)]
        is_dock_probe_model(aux, docks, reflow) && (!dock_budget_spent(e)
            ==> crate::planner::unreachable_goal(aux, start, crate::envs::ACTIONS@))
}

/// `e` expansions exhaust the dock search's budget.
pub open spec fn dock_budget_spent(e: nat) -> bool {
    e >= 100_000
}

impl Deliberator for CartDeliberator {
    closed spec fn spec_calls(&self) -> Seq<DeliberationCall> {
        self.calls@
    }

    #[verifier::rlimit(30)]
    fn deliberate(
        &mut self,
        current: &Grid,
        model: &mut WorldModel,
        timeline: &Timeline,
        backtest: &BacktestReport,
        counterexample: Option<&Transition>,
    ) -> (d: Deliberation)
        ensures
            final(self).docks() == old(self).docks(),
            final(model).goal_rule == old(model).goal_rule,
            counterexample is Some && !old(self).unified ==> {
                let ce = counterexample.unwrap()@;
                let pred = cart_step_spec(old(self).docks(), old(self).reflow@, false, ce.before, ce.action);
                let learned = old(self).reflow@.union_prefer_right(grid_diff(pred.grid, ce.after));
                &&& final(self).reflow@ == learned
                &&& final(self).unified
                &&& is_cart_rule(final(model).step_rule, old(self).docks(), learned, true)
                &&& final(model).revision == old(model).revision + (if old(model).revision == 0 {
                    2int
                } else {
                    1int
                })
                &&& d.intent == Intent::Plan
                &&& d.actions@.len() == 0
                &&& exists|s: Seq<((usize, usize), u8)>|
                    enumerates(learned, s) && d.note@ == learned_note_text(s)
                        && final(model).history.deep_view() == after_first_install(*old(model)).push(
                        unified_install_text(s),
                    )
            },
            !(counterexample is Some && !old(self).unified) ==> {
                &&& final(self).reflow@ == old(self).reflow@
                &&& final(self).unified == old(self).unified
                &&& old(model).revision == 0 ==> {
                    &&& is_cart_rule(
                        final(model).step_rule,
                        old(self).docks(),
                        old(self).reflow@,
                        old(self).unified,
                    )
                    &&& final(model).revision == 1
                    &&& final(model).history.deep_view() == after_first_install(*old(model))
                }
                &&& old(model).revision != 0 ==> *final(model) == *old(model)
                &&& d.intent == Intent::Experiment ==> {
                    &&& !old(self).unified
                    &&& !crate::model::docked_spec(old(self).docks(), board(current))
                    &&& drives_cart_to_dock(
                        old(self).docks(),
                        old(self).reflow@,
                        board(current),
                        texts(d.actions@),
                        d.note@,
                    )
                }
                &&& d.intent == Intent::Plan ==> {
                    &&& d.actions@.len() == 0
                    &&& d.note@ == planning_note_text(summary_text(backtest@))
                    &&& !old(self).unified && !crate::model::docked_spec(old(self).docks(), board(current))
                        ==> dock_search_failed(old(self).docks(), old(self).reflow@, board(current))
                }
                &&& (old(self).unified || crate::model::docked_spec(old(self).docks(), board(current)))
                    ==> d.intent == Intent::Plan
            },
    {
        let ghost calls0 = self.calls@;
        let ghost model0 = *model;
        if model.revision == 0 {
            self.install(model, "initial representation: static board + cart sprite; walls immutable");
        }
        assert(model.history.deep_view() == after_first_install(*old(model)));
        match counterexample {
            Some(ce) => {
                if !self.unified {
                    let pred = cart_step(
                        &self.dock_cells,
                        &self.reflow,
                        false,
                        &ce.state_before,
                        ce.action.as_str(),
                    );
                    learn_reflow(&mut self.reflow, &pred.grid, &ce.state_after);
                    self.unified = true;
                    let entries = reflow_entries(&self.reflow);
                    let mut desc = String::new();
                    push_str(
                        &mut desc,
                        "representation revision: cart unified as a board cell; dock event rewrites cells ",
                    );
                    push_cells(&mut desc, &entries);
                    push_str(&mut desc, " to observed values (learned from counterexample diff)");
                    self.install(model, desc.as_str());
                    let mut note = String::new();
                    push_str(
                        &mut note,
                        "Counterexample at dock: sprite-overlay representation cannot express the board reflow. Revised representation jointly with rules; learned reflow ",
                    );
                    push_reflow(&mut note, &entries);
                    push_str(&mut note, ".");
                    assert(enumerates(self.reflow@, entries@) && note@ == learned_note_text(entries@)
                        && model.history.deep_view() == after_first_install(*old(model)).push(
                        unified_install_text(entries@),
                    ));
                    let d = Deliberation { actions: Vec::new(), intent: Intent::Plan, note };
                    self.calls = Ghost(calls0.push(call_record(current, model0, timeline, backtest, counterexample, *model, &d)));
                    return d;
                }
            },
            None => {},
        }
        if !self.unified && !self.cart_docked(current) {
            let mut history: Vec<String> = Vec::new();
            history.push(owned("aux: cart-on-dock probe goal"));
            let aux = WorldModel {
                step_rule: StepRule::Cart {
                    dock_cells: copy_cells(&self.dock_cells),
                    reflow: self.reflow.clone(),
                    unified: false,
                },
                goal_rule: GoalRule::Docked(copy_cells(&self.dock_cells)),
                revision: 0,
                history,
            };
            let bfs = run_bfs(&aux, current, &crate::envs::ACTIONS, 100_000);
            let bfs_summary = bfs.summary();
            match bfs.plan {
                Some(plan) => {
                    let mut note = String::new();
                    push_str(
                        &mut note,
                        "Goal unreachable under current model; driving cart to dock as observation point (",
                    );
                    push_str(&mut note, bfs_summary.as_str());
                    push_str(&mut note, ").");
                    proof {
                        let via = bfs.goal_via.unwrap();
                        let e = bfs.expanded as nat;
                        let n = bfs.distinct as nat;
                        assert(is_dock_probe_model(aux, old(self).docks(), old(self).reflow@)
                            && plan_reaches(aux, board(current), texts(plan@), via) && note@
                            == dock_probe_note_text(
                            bfs_summary_text(Some(texts(plan@)), Some(via), e, n),
                        ));
                    }
                    let d = Deliberation { actions: plan, intent: Intent::Experiment, note };
                    self.calls = Ghost(calls0.push(call_record(current, model0, timeline, backtest, counterexample, *model, &d)));
                    return d;
                },
                None => {
                    proof {
                        let e = bfs.expanded as nat;
                        assert(is_dock_probe_model(aux, old(self).docks(), old(self).reflow@) && (
                        !dock_budget_spent(e) ==> crate::planner::unreachable_goal(
                            aux,
                            board(current),
                            crate::envs::ACTIONS@,
                        )));
                    }
                },
            }
        }
        let mut note = String::new();
        push_str(&mut note, "Backtest ");
        let summary = backtest.summary();
        push_str(&mut note, summary.as_str());
        push_str(&mut note, "; planning.");
        let d = Deliberation { actions: Vec::new(), intent: Intent::Plan, note };
        self.calls = Ghost(calls0.push(call_record(current, model0, timeline, backtest, counterexample, *model, &d)));
        d
    }
}

} // verus!
