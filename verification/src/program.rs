//! RuleProgram: the world model as an interpretable program of data.
//!
//! A program is an ordered list of [`Rule`]s over a grid where the player is
//! colour 1. Each step the player attempts to move one cell in the action's
//! direction; the first rule whose `on_target` matches the colour of the cell
//! being entered (and whose optional `beyond` guard holds) fires and its
//! [`Effect`] applies. When no rule fires the move is blocked.

use vstd::prelude::*;

use crate::grid::{
    action_delta, board, cell_in_bounds, copy_grid, in_bounds, locate, player_of,
    set_cell, set_cell_spec, Grid,
};
use crate::model::{plain, Outcome, Prediction};
use crate::text::{decimal, join, list_text, owned, push_color_list, push_decimal, push_joined, push_str, texts};

verus! {

broadcast use crate::grid::group_board;

/// An absolute cell rewrite applied by an effect (a board reflow).
#[derive(Debug, Clone, Copy, PartialEq, Eq)]
pub struct CellWrite {
    pub x: usize,
    pub y: usize,
    pub color: u8,
}

/// What happens when a rule fires.
#[derive(Debug, Clone, PartialEq, Eq, Default)]
pub struct Effect {
    /// The player moves onto the target cell (leaving floor `0` behind).
    pub player_advances: bool,
    /// The target cell's occupant is pushed one further cell; the player then
    /// takes the vacated target.
    pub push: bool,
    /// Sets the `win` flag.
    pub win: bool,
    /// Sets the `dead` flag.
    pub dead: bool,
    /// Absolute cell rewrites applied after movement.
    pub writes: Vec<CellWrite>,
    /// If set, `writes` apply only when the pushed occupant landed on a cell
    /// of this colour.
    pub writes_when_beyond: Option<u8>,
}

/// The mathematical value of an [`Effect`].
pub struct EffectView {
    pub player_advances: bool,
    pub push: bool,
    pub win: bool,
    pub dead: bool,
    pub writes: Seq<CellWrite>,
    pub writes_when_beyond: Option<u8>,
}

impl View for Effect {
    type V = EffectView;

    open spec fn view(&self) -> EffectView {
        EffectView {
            player_advances: self.player_advances,
            push: self.push,
            win: self.win,
            dead: self.dead,
            writes: self.writes@,
            writes_when_beyond: self.writes_when_beyond,
        }
    }
}

impl Effect {
    /// The "walk onto this cell" effect.
    pub fn advance() -> (e: Effect)
        ensures
            e@ == (EffectView {
                player_advances: true,
                push: false,
                win: false,
                dead: false,
                writes: Seq::empty(),
                writes_when_beyond: None,
            }),
    {
        let e = Effect {
            player_advances: true,
            push: false,
            win: false,
            dead: false,
            writes: Vec::new(),
            writes_when_beyond: None,
        };
        assert(e@.writes =~= Seq::<CellWrite>::empty());
        e
    }

    /// The "walk onto this cell and win" effect.
    pub fn advance_win() -> (e: Effect)
        ensures
            e@ == (EffectView {
                player_advances: true,
                push: false,
                win: true,
                dead: false,
                writes: Seq::empty(),
                writes_when_beyond: None,
            }),
    {
        let e = Effect {
            player_advances: true,
            push: false,
            win: true,
            dead: false,
            writes: Vec::new(),
            writes_when_beyond: None,
        };
        assert(e@.writes =~= Seq::<CellWrite>::empty());
        e
    }
}

/// One transition rule, keyed on the colour of the cell the player enters.
#[derive(Debug, Clone, PartialEq, Eq)]
pub struct Rule {
    /// Fires when the player attempts to enter a cell of this colour.
    pub on_target: u8,
    /// Optional guard: the cell one further in the move direction must have
    /// one of these colours.
    pub beyond_any_of: Option<Vec<u8>>,
    /// A short human note describing the rule's intent.
    pub note: String,
    pub effect: Effect,
}

/// The mathematical value of a [`Rule`].
pub struct RuleView {
    pub on_target: u8,
    pub beyond_any_of: Option<Seq<u8>>,
    pub note: Seq<char>,
    pub effect: EffectView,
}

impl View for Rule {
    type V = RuleView;

    open spec fn view(&self) -> RuleView {
        RuleView {
            on_target: self.on_target,
            beyond_any_of: match self.beyond_any_of {
                Some(v) => Some(v@),
                None => None,
            },
            note: self.note@,
            effect: self.effect@,
        }
    }
}

impl Rule {
    pub fn new(on_target: u8, effect: Effect) -> (r: Rule)
        ensures
            r@ == (RuleView { on_target, beyond_any_of: None, note: Seq::empty(), effect: effect@ }),
    {
        Rule { on_target, beyond_any_of: None, note: String::new(), effect }
    }
}

/// The world model as data: an ordered list of rules plus a goal predicate
/// "no cell has any of these colours".
#[derive(Debug, Clone, PartialEq, Eq, Default)]
pub struct RuleProgram {
    pub rules: Vec<Rule>,
    /// Goal predicate: satisfied when the grid contains none of these colours.
    /// Empty = never satisfied.
    pub goal_absent_colors: Vec<u8>,
}

/// The values of a sequence of rules.
pub open spec fn rule_views(rules: Seq<Rule>) -> Seq<RuleView> {
    rules.map_values(|r: Rule| r@)
}

/// The mathematical value of a [`RuleProgram`].
pub struct ProgramView {
    pub rules: Seq<RuleView>,
    pub goal_absent_colors: Seq<u8>,
}

impl View for RuleProgram {
    type V = ProgramView;

    open spec fn view(&self) -> ProgramView {
        ProgramView {
            rules: rule_views(self.rules@),
            goal_absent_colors: self.goal_absent_colors@,
        }
    }
}

/// Rule `r` fires on a move into a cell of colour `target` whose further
/// neighbour holds `beyond` (None when it is off the board).
pub open spec fn fires(r: RuleView, target: u8, beyond: Option<u8>) -> bool {
    &&& r.on_target == target
    &&& match r.beyond_any_of {
        None => true,
        Some(allowed) => match beyond {
            Some(b) => allowed.contains(b),
            None => false,
        },
    }
}

/// Rule `i` is the first rule that fires.
pub open spec fn first_fires_at(rules: Seq<RuleView>, target: u8, beyond: Option<u8>, i: int) -> bool {
    &&& 0 <= i < rules.len()
    &&& fires(rules[i], target, beyond)
    &&& forall|j: int| 0 <= j < i ==> !fires(#[trigger] rules[j], target, beyond)
}

/// The index of the first rule that fires, if any does.
pub open spec fn first_firing(rules: Seq<RuleView>, target: u8, beyond: Option<u8>) -> Option<int> {
    if exists|i: int| 0 <= i < rules.len() && fires(#[trigger] rules[i], target, beyond) {
        Some(choose|i: int| first_fires_at(rules, target, beyond, i))
    } else {
        None
    }
}

/// The board after the writes of `ws`, applied in order; a write off the
/// board is skipped.
pub open spec fn apply_writes(b: Seq<Seq<u8>>, ws: Seq<CellWrite>) -> Seq<Seq<u8>>
    decreases ws.len(),
{
    if ws.len() == 0 {
        b
    } else {
        let b2 = apply_writes(b, ws.drop_last());
        let w = ws.last();
        if in_bounds(b2, w.x as int, w.y as int) {
            set_cell_spec(b2, w.x as int, w.y as int, w.color)
        } else {
            b2
        }
    }
}

/// Whether the writes apply, given the colour the pushed occupant landed on.
pub open spec fn writes_apply(when: Option<u8>, docked: Option<u8>) -> bool {
    match when {
        None => true,
        Some(c) => docked == Some(c),
    }
}

/// The outcome once movement produced `moved`; `docked` is the colour the
/// pushed occupant landed on.
pub open spec fn finish(moved: Seq<Seq<u8>>, docked: Option<u8>, e: EffectView) -> Outcome {
    Outcome {
        grid: if writes_apply(e.writes_when_beyond, docked) {
            apply_writes(moved, e.writes)
        } else {
            moved
        },
        level_up: false,
        dead: e.dead,
        win: e.win,
    }
}

/// The outcome of applying effect `e` to a move of the player at `(px, py)`
/// into `(tx, ty)` in direction `(dx, dy)`.
pub open spec fn apply_effect(
    b: Seq<Seq<u8>>,
    px: int,
    py: int,
    tx: int,
    ty: int,
    dx: int,
    dy: int,
    beyond: Option<u8>,
    e: EffectView,
) -> Outcome {
    if e.push {
        let bx = tx + dx;
        let by = ty + dy;
        if !in_bounds(b, bx, by) {
            plain(b)
        } else {
            let b1 = set_cell_spec(b, bx, by, b[ty][tx]);
            let b2 = set_cell_spec(b1, tx, ty, 1);
            let b3 = set_cell_spec(b2, px, py, 0);
            finish(b3, beyond, e)
        }
    } else if e.player_advances {
        finish(set_cell_spec(set_cell_spec(b, px, py, 0), tx, ty, 1), None, e)
    } else {
        finish(b, None, e)
    }
}

/// The program's `step(state, action)`.
#[verifier::opaque]
pub open spec fn program_step(p: ProgramView, b: Seq<Seq<u8>>, a: Seq<char>) -> Outcome {
    match player_of(b) {
        None => plain(b),
        Some(pos) => {
            let (px, py) = pos;
            let (dx, dy) = action_delta(a);
            let tx = px + dx;
            let ty = py + dy;
            if !in_bounds(b, tx, ty) {
                plain(b)
            } else {
                let target = b[ty][tx];
                let beyond = if in_bounds(b, tx + dx, ty + dy) {
                    Some(b[ty + dy][tx + dx])
                } else {
                    None
                };
                match first_firing(p.rules, target, beyond) {
                    None => plain(b),
                    Some(i) => apply_effect(b, px, py, tx, ty, dx, dy, beyond, p.rules[i].effect),
                }
            }
        },
    }
}

/// The program's goal predicate.
pub open spec fn program_goal(p: ProgramView, b: Seq<Seq<u8>>) -> bool {
    &&& p.goal_absent_colors.len() > 0
    &&& forall|y: int, x: int|
        0 <= y < b.len() && 0 <= x < b[y].len() ==> !p.goal_absent_colors.contains(#[trigger] b[y][x])
}

proof fn lemma_first_firing(rules: Seq<RuleView>, target: u8, beyond: Option<u8>, i: int)
    requires
        first_fires_at(rules, target, beyond, i),
    ensures
        first_firing(rules, target, beyond) == Some(i),
{
    assert(fires(rules[i], target, beyond));
    let k = choose|k: int| first_fires_at(rules, target, beyond, k);
    assert(first_fires_at(rules, target, beyond, k));
    if k < i {
        assert(!fires(rules[k], target, beyond));
    } else if i < k {
        assert(!fires(rules[i], target, beyond));
    }
}

fn contains_color(v: &Vec<u8>, c: u8) -> (r: bool)
    ensures
        r == v@.contains(c),
{
    let mut i: usize = 0;
    while i < v.len()
        invariant
            i <= v.len(),
            forall|j: int| 0 <= j < i ==> v@[j] != c,
        decreases v.len() - i,
    {
        if v[i] == c {
            assert(v@[i as int] == c);
            return true;
        }
        i = i + 1;
    }
    false
}

fn rule_fires(r: &Rule, target: u8, beyond: Option<u8>) -> (f: bool)
    ensures
        f == fires(r@, target, beyond),
{
    if r.on_target != target {
        return false;
    }
    match &r.beyond_any_of {
        None => true,
        Some(allowed) => match beyond {
            Some(b) => contains_color(allowed, b),
            None => false,
        },
    }
}

/// Applies the writes `ws` in order to `g`, skipping writes off the board.
fn write_cells(g: &mut Grid, ws: &Vec<CellWrite>)
    ensures
        board(final(g)) == apply_writes(board(old(g)), ws@),
{
    let mut i: usize = 0;
    while i < ws.len()
        invariant
            i <= ws.len(),
            board(g) == apply_writes(board(old(g)), ws@.take(i as int)),
        decreases ws.len() - i,
    {
        let w = ws[i];
        assert(ws@.take(i + 1).drop_last() =~= ws@.take(i as int));
        assert(ws@.take(i + 1).last() == w);
        if cell_in_bounds(g, w.x as i128, w.y as i128) {
            set_cell(g, w.x, w.y, w.color);
        }
        i = i + 1;
    }
    assert(ws@.take(ws.len() as int) =~= ws@);
}

impl RuleProgram {
    /// The zero hypothesis: everything is blocked, nothing wins.
    pub fn vacuous() -> (p: RuleProgram)
        ensures
            p@.rules.len() == 0,
            p@.goal_absent_colors.len() == 0,
    {
        RuleProgram { rules: Vec::new(), goal_absent_colors: Vec::new() }
    }

    /// One step of the program: the world model's `step(state, action)`.
    #[verifier::loop_isolation(false)]
    pub fn step(&self, state: &Grid, action: &str) -> (p: Prediction)
        ensures
            p@ == program_step(self@, board(state), action@),
    {
        reveal(program_step);
        let ghost b = board(state);
        let pos = locate(state, 1);
        let (px, py) = match pos {
            Some(p) => p,
            None => {
                return Prediction::of(copy_grid(state));
            },
        };
        proof {
            crate::grid::lemma_first_of_some(b, 1);
        }
        let (dx, dy) = crate::envs::delta(action);
        let tx = px as i128 + dx as i128;
        let ty = py as i128 + dy as i128;
        if !cell_in_bounds(state, tx, ty) {
            return Prediction::of(copy_grid(state));
        }
        let txu = tx as usize;
        let tyu = ty as usize;
        let target = state[tyu][txu];
        let bx = tx + dx as i128;
        let by = ty + dy as i128;
        let beyond = if cell_in_bounds(state, bx, by) {
            Some(state[by as usize][bx as usize])
        } else {
            None
        };
        let ghost rules = self@.rules;
        let mut i: usize = 0;
        while i < self.rules.len()
            invariant
                rules == self@.rules,
                i <= self.rules.len(),
                forall|j: int| 0 <= j < i ==> !fires(#[trigger] rules[j], target, beyond),
            decreases self.rules.len() - i,
        {
            if rule_fires(&self.rules[i], target, beyond) {
                proof {
                    lemma_first_firing(rules, target, beyond, i as int);
                }
                return Self::apply(state, px, py, txu, tyu, dx, dy, beyond, &self.rules[i].effect);
            }
            i = i + 1;
        }
        assert(first_firing(rules, target, beyond) is None);
        Prediction::of(copy_grid(state))
    }

    fn apply(
        state: &Grid,
        px: usize,
        py: usize,
        tx: usize,
        ty: usize,
        dx: i32,
        dy: i32,
        beyond: Option<u8>,
        effect: &Effect,
    ) -> (p: Prediction)
        requires
            py < board(state).len(),
            px < board(state)[py as int].len(),
            in_bounds(board(state), tx as int, ty as int),
            beyond == (if in_bounds(board(state), tx + dx, ty + dy) {
                Some(board(state)[ty + dy][tx + dx])
            } else {
                None::<u8>
            }),
        ensures
            p@ == apply_effect(
                board(state),
                px as int,
                py as int,
                tx as int,
                ty as int,
                dx as int,
                dy as int,
                beyond,
                effect@,
            ),
    {
        let mut g = copy_grid(state);
        assert(board(&g).len() == g.len());
        let mut docked: Option<u8> = None;
        if effect.push {
            let bx = tx as i128 + dx as i128;
            let by = ty as i128 + dy as i128;
            if !cell_in_bounds(&g, bx, by) {
                return Prediction::of(copy_grid(state));
            }
            let bxu = bx as usize;
            let byu = by as usize;
            docked = beyond;
            let occupant = g[ty][tx];
            set_cell(&mut g, bxu, byu, occupant);
            assert(board(&g).len() == g.len());
            assert(board(&g)[ty as int].len() == g[ty as int].len());
            set_cell(&mut g, tx, ty, 1);
            assert(board(&g).len() == g.len());
            assert(board(&g)[py as int].len() == g[py as int].len());
            set_cell(&mut g, px, py, 0);
        } else if effect.player_advances {
            set_cell(&mut g, px, py, 0);
            assert(board(&g).len() == g.len());
            assert(board(&g)[ty as int].len() == g[ty as int].len());
            set_cell(&mut g, tx, ty, 1);
        }
        let apply = match effect.writes_when_beyond {
            None => true,
            Some(c) => match docked {
                Some(d) => d == c,
                None => false,
            },
        };
        if apply {
            write_cells(&mut g, &effect.writes);
        }
        Prediction { grid: g, level_up: false, dead: effect.dead, win: effect.win }
    }

    /// The program's goal predicate: the grid holds none of the goal colours.
    pub fn is_goal(&self, state: &Grid) -> (r: bool)
        ensures
            r == program_goal(self@, board(state)),
    {
        let ghost b = board(state);
        if self.goal_absent_colors.len() == 0 {
            return false;
        }
        let mut y: usize = 0;
        while y < state.len()
            invariant
                b == board(state),
                y <= state.len(),
                self.goal_absent_colors.len() > 0,
                forall|y2: int, x2: int|
                    0 <= y2 < y && 0 <= x2 < b[y2].len() ==> !self@.goal_absent_colors.contains(
                        #[trigger] b[y2][x2],
                    ),
            decreases state.len() - y,
        {
            let row = &state[y];
            let mut x: usize = 0;
            while x < row.len()
                invariant
                    b == board(state),
                    y < state.len(),
                    row@ == b[y as int],
                    x <= row.len(),
                    forall|y2: int, x2: int|
                        0 <= y2 < y && 0 <= x2 < b[y2].len() ==> !self@.goal_absent_colors.contains(
                            #[trigger] b[y2][x2],
                        ),
                    forall|x2: int|
                        0 <= x2 < x ==> !self@.goal_absent_colors.contains(#[trigger] b[y as int][x2]),
                decreases row.len() - x,
            {
                if contains_color(&self.goal_absent_colors, row[x]) {
                    assert(self@.goal_absent_colors.contains(b[y as int][x as int]));
                    return false;
                }
                x = x + 1;
            }
            y = y + 1;
        }
        true
    }
}

} // verus!

verus! {

/// A cell write as the pretty form prints it: `(x,y)=c`.
pub open spec fn write_text(w: CellWrite) -> Seq<char> {
    "("@ + decimal(w.x as nat) + ","@ + decimal(w.y as nat) + ")="@ + decimal(w.color as nat)
}

/// The word `w` when `on` holds, nothing otherwise.
pub open spec fn flag_word(on: bool, w: Seq<char>) -> Seq<Seq<char>> {
    if on {
        seq![w]
    } else {
        Seq::empty()
    }
}

/// The `writes ...` word of an effect that has writes.
pub open spec fn writes_word(e: EffectView) -> Seq<Seq<char>> {
    if e.writes.len() == 0 {
        Seq::empty()
    } else {
        seq![
            "writes "@ + join(e.writes.map_values(|w: CellWrite| write_text(w)), ","@) + match e.writes_when_beyond {
                Some(c) => " when beyond="@ + decimal(c as nat),
                None => Seq::empty(),
            },
        ]
    }
}

/// The words naming what an effect does; `block` when it does nothing.
pub open spec fn effect_words(e: EffectView) -> Seq<Seq<char>> {
    let all = flag_word(e.push, "push"@) + flag_word(e.player_advances, "advance"@) + flag_word(
        e.win,
        "win"@,
    ) + flag_word(e.dead, "dead"@) + writes_word(e);
    if all.len() == 0 {
        seq!["block"@]
    } else {
        all
    }
}

/// One line of the pretty form: `on color t [beyond∈[..]] -> words\n`.
pub open spec fn rule_line(r: RuleView) -> Seq<char> {
    "on color "@ + decimal(r.on_target as nat) + match r.beyond_any_of {
        Some(b) => " beyond∈"@ + list_text(b),
        None => Seq::empty(),
    } + " -> "@ + join(effect_words(r.effect), "+"@) + "\n"@
}

/// The pretty form of a program: one line per rule.
pub open spec fn pretty_text(p: ProgramView) -> Seq<char> {
    if p.rules.len() == 0 {
        "(no rules: everything blocked)\n"@
    } else {
        join(p.rules.map_values(|r: RuleView| rule_line(r)), Seq::empty())
    }
}

fn push_write(s: &mut String, w: CellWrite)
    ensures
        final(s)@ == old(s)@ + write_text(w),
{
    push_str(s, "(");
    push_decimal(s, w.x);
    push_str(s, ",");
    push_decimal(s, w.y);
    push_str(s, ")=");
    push_decimal(s, w.color as usize);
    assert(s@ =~= old(s)@ + write_text(w));
}

fn push_writes(s: &mut String, ws: &Vec<CellWrite>)
    ensures
        final(s)@ == old(s)@ + join(ws@.map_values(|w: CellWrite| write_text(w)), ","@),
{
    let ghost start = s@;
    let ghost t = ws@.map_values(|w: CellWrite| write_text(w));
    let mut i: usize = 0;
    while i < ws.len()
        invariant
            i <= ws.len(),
            t == ws@.map_values(|w: CellWrite| write_text(w)),
            s@ == start + join(t.take(i as int), ","@),
        decreases ws.len() - i,
    {
        if i > 0 {
            push_str(s, ",");
        }
        push_write(s, ws[i]);
        i = i + 1;
        assert(t.take(i as int).drop_last() =~= t.take(i - 1));
        assert(s@ =~= start + join(t.take(i as int), ","@));
    }
    assert(t.take(ws.len() as int) =~= t);
}

/// The words naming what an effect does.
fn effect_words_of(e: &Effect) -> (w: Vec<String>)
    ensures
        texts(w@) == effect_words(e@),
{
    let mut w: Vec<String> = Vec::new();
    if e.push {
        w.push(owned("push"));
    }
    if e.player_advances {
        w.push(owned("advance"));
    }
    if e.win {
        w.push(owned("win"));
    }
    if e.dead {
        w.push(owned("dead"));
    }
    let ghost flags = texts(w@);
    assert(flags =~= flag_word(e.push, "push"@) + flag_word(e.player_advances, "advance"@) + flag_word(
        e.win,
        "win"@,
    ) + flag_word(e.dead, "dead"@));
    if e.writes.len() > 0 {
        let mut item = String::new();
        push_str(&mut item, "writes ");
        push_writes(&mut item, &e.writes);
        let ghost listed = "writes "@ + join(e@.writes.map_values(|w: CellWrite| write_text(w)), ","@);
        assert(item@ =~= listed);
        match e.writes_when_beyond {
            Some(c) => {
                push_str(&mut item, " when beyond=");
                push_decimal(&mut item, c as usize);
                assert(item@ =~= listed + (" when beyond="@ + decimal(c as nat)));
            },
            None => {
                assert(item@ =~= listed + Seq::<char>::empty());
            },
        }
        assert(writes_word(e@) =~= seq![item@]);
        let ghost before = w@;
        w.push(item);
        assert(texts(w@) =~= texts(before).push(item@));
    }
    assert(texts(w@) =~= flags + writes_word(e@));
    if w.len() == 0 {
        w.push(owned("block"));
        assert(texts(w@) =~= seq!["block"@]);
    }
    w
}

fn push_rule_line(s: &mut String, r: &Rule)
    ensures
        final(s)@ == old(s)@ + rule_line(r@),
{
    push_str(s, "on color ");
    push_decimal(s, r.on_target as usize);
    match &r.beyond_any_of {
        Some(b) => {
            push_str(s, " beyond∈");
            push_color_list(s, b);
        },
        None => {},
    }
    push_str(s, " -> ");
    let words = effect_words_of(&r.effect);
    push_joined(s, &words, "+");
    push_str(s, "\n");
    assert(s@ =~= old(s)@ + rule_line(r@));
}

impl RuleProgram {
    /// A compact human-readable form, one line per rule.
    pub fn to_pretty(&self) -> (s: String)
        ensures
            s@ == pretty_text(self@),
    {
        let mut out = String::new();
        let ghost lines = self@.rules.map_values(|r: RuleView| rule_line(r));
        let mut i: usize = 0;
        while i < self.rules.len()
            invariant
                i <= self.rules.len(),
                lines == self@.rules.map_values(|r: RuleView| rule_line(r)),
                out@ == join(lines.take(i as int), Seq::empty()),
            decreases self.rules.len() - i,
        {
            push_rule_line(&mut out, &self.rules[i]);
            i = i + 1;
            assert(lines.take(i as int).drop_last() =~= lines.take(i - 1));
            assert(out@ =~= join(lines.take(i as int), Seq::empty()));
        }
        assert(lines.take(self.rules.len() as int) =~= lines);
        if self.rules.len() == 0 {
            push_str(&mut out, "(no rules: everything blocked)\n");
        }
        out
    }
}

} // verus!

verus! {

/// Two rules are versions of one another: same target colour and same
/// `beyond` guard.
pub open spec fn same_key(a: RuleView, b: RuleView) -> bool {
    a.on_target == b.on_target && a.beyond_any_of == b.beyond_any_of
}

/// The first rule from position `j` on that is a version of `r`.
pub open spec fn key_match_from(rules: Seq<RuleView>, r: RuleView, j: int) -> Option<RuleView>
    decreases rules.len() - j,
{
    if j < 0 || j >= rules.len() {
        None
    } else if same_key(rules[j], r) {
        Some(rules[j])
    } else {
        key_match_from(rules, r, j + 1)
    }
}

/// The diff line of rule `r` of the revised program, if it has one.
pub open spec fn change_line(r: RuleView, prev: Seq<RuleView>) -> Seq<Seq<char>> {
    match key_match_from(prev, r, 0) {
        None => seq!["+ rule on color "@ + decimal(r.on_target as nat)],
        Some(p) => if p.effect != r.effect {
            seq!["~ rule on color "@ + decimal(r.on_target as nat) + " effect changed"@]
        } else {
            Seq::empty()
        },
    }
}

/// The lines for added and changed rules, in the revised program's order.
pub open spec fn change_lines(cur: Seq<RuleView>, prev: Seq<RuleView>) -> Seq<Seq<char>>
    decreases cur.len(),
{
    if cur.len() == 0 {
        Seq::empty()
    } else {
        change_lines(cur.drop_last(), prev) + change_line(cur.last(), prev)
    }
}

/// The lines for removed rules, in the previous program's order.
pub open spec fn removed_lines(cur: Seq<RuleView>, prev: Seq<RuleView>) -> Seq<Seq<char>>
    decreases prev.len(),
{
    if prev.len() == 0 {
        Seq::empty()
    } else {
        removed_lines(cur, prev.drop_last()) + if key_match_from(cur, prev.last(), 0) is None {
            seq!["- rule on color "@ + decimal(prev.last().on_target as nat)]
        } else {
            Seq::empty()
        }
    }
}

/// The line for a changed goal predicate, if it changed.
pub open spec fn goal_line(cur: Seq<u8>, prev: Seq<u8>) -> Seq<Seq<char>> {
    if cur != prev {
        seq!["~ goal predicate: absent"@ + list_text(prev) + " -> absent"@ + list_text(cur)]
    } else {
        Seq::empty()
    }
}

/// The structural diff of a revised program against a previous one.
pub open spec fn diff_lines(cur: ProgramView, prev: ProgramView) -> Seq<Seq<char>> {
    change_lines(cur.rules, prev.rules) + removed_lines(cur.rules, prev.rules) + goal_line(
        cur.goal_absent_colors,
        prev.goal_absent_colors,
    )
}

fn guards_equal(a: &Option<Vec<u8>>, b: &Option<Vec<u8>>) -> (r: bool)
    ensures
        r == ((match a {
            Some(v) => Some(v@),
            None => None,
        }) == (match b {
            Some(v) => Some(v@),
            None => None,
        })),
{
    match (a, b) {
        (Some(x), Some(y)) => crate::grid::rows_equal(x, y),
        (None, None) => true,
        _ => false,
    }
}

fn writes_equal(a: &Vec<CellWrite>, b: &Vec<CellWrite>) -> (r: bool)
    ensures
        r == (a@ == b@),
{
    if a.len() != b.len() {
        return false;
    }
    let mut i: usize = 0;
    while i < a.len()
        invariant
            a.len() == b.len(),
            i <= a.len(),
            forall|k: int| 0 <= k < i ==> a@[k] == b@[k],
        decreases a.len() - i,
    {
        let (x, y) = (a[i], b[i]);
        if x.x != y.x || x.y != y.y || x.color != y.color {
            assert(a@[i as int] != b@[i as int]);
            return false;
        }
        i = i + 1;
    }
    assert(a@ =~= b@);
    true
}

fn effects_equal(a: &Effect, b: &Effect) -> (r: bool)
    ensures
        r == (a@ == b@),
{
    let when_same = match (a.writes_when_beyond, b.writes_when_beyond) {
        (Some(x), Some(y)) => x == y,
        (None, None) => true,
        _ => false,
    };
    a.player_advances == b.player_advances && a.push == b.push && a.win == b.win && a.dead == b.dead
        && when_same && writes_equal(&a.writes, &b.writes)
}

fn keys_equal(a: &Rule, b: &Rule) -> (r: bool)
    ensures
        r == same_key(a@, b@),
{
    a.on_target == b.on_target && guards_equal(&a.beyond_any_of, &b.beyond_any_of)
}

/// The position of the first rule of `rules` that is a version of `r`.
fn find_key(rules: &Vec<Rule>, r: &Rule) -> (i: Option<usize>)
    ensures
        match i {
            Some(i) => i < rules.len() && key_match_from(rule_views(rules@), r@, 0)
                == Some(rules@[i as int]@),
            None => key_match_from(rule_views(rules@), r@, 0) is None,
        },
{
    let ghost v = rule_views(rules@);
    let mut j: usize = 0;
    while j < rules.len()
        invariant
            v == rule_views(rules@),
            j <= rules.len(),
            key_match_from(v, r@, 0) == key_match_from(v, r@, j as int),
        decreases rules.len() - j,
    {
        if keys_equal(&rules[j], r) {
            return Some(j);
        }
        j = j + 1;
    }
    None
}

fn push_line(lines: &mut Vec<String>, head: &str, color: u8, tail: &str)
    ensures
        texts(final(lines)@) == texts(old(lines)@).push(head@ + decimal(color as nat) + tail@),
{
    let mut line = String::new();
    push_str(&mut line, head);
    push_decimal(&mut line, color as usize);
    push_str(&mut line, tail);
    lines.push(line);
    assert(texts(lines@) =~= texts(old(lines)@).push(head@ + decimal(color as nat) + tail@));
}

impl RuleProgram {
    /// A structural diff against a previous program, as readable lines:
    /// `+` for a rule with no version in `prev`, `~` for a rule whose first
    /// version in `prev` has another effect, `-` for a rule of `prev` with no
    /// version here, and a goal line when the goal colours differ.
    pub fn diff(&self, prev: &RuleProgram) -> (lines: Vec<String>)
        ensures
            texts(lines@) == diff_lines(self@, prev@),
    {
        let ghost cur = self@.rules;
        let ghost old_rules = prev@.rules;
        let mut lines: Vec<String> = Vec::new();
        let mut i: usize = 0;
        assert(cur.take(0) =~= Seq::<RuleView>::empty());
        while i < self.rules.len()
            invariant
                cur == self@.rules,
                old_rules == prev@.rules,
                i <= self.rules.len(),
                texts(lines@) == change_lines(cur.take(i as int), old_rules),
            decreases self.rules.len() - i,
        {
            let r = &self.rules[i];
            assert(cur.take(i + 1).drop_last() =~= cur.take(i as int));
            assert(cur.take(i + 1).last() == r@);
            match find_key(&prev.rules, r) {
                None => {
                    push_line(&mut lines, "+ rule on color ", r.on_target, "");
                    proof {
                        reveal_strlit("");
                    }
                    assert(texts(lines@) =~= change_lines(cur.take(i + 1), old_rules));
                },
                Some(k) => {
                    if !effects_equal(&prev.rules[k].effect, &r.effect) {
                        push_line(&mut lines, "~ rule on color ", r.on_target, " effect changed");
                        assert(texts(lines@) =~= change_lines(cur.take(i + 1), old_rules));
                    } else {
                        assert(texts(lines@) =~= change_lines(cur.take(i + 1), old_rules));
                    }
                },
            }
            i = i + 1;
        }
        assert(cur.take(self.rules.len() as int) =~= cur);
        let ghost changed = texts(lines@);
        let mut j: usize = 0;
        assert(old_rules.take(0) =~= Seq::<RuleView>::empty());
        while j < prev.rules.len()
            invariant
                cur == self@.rules,
                old_rules == prev@.rules,
                j <= prev.rules.len(),
                changed == change_lines(cur, old_rules),
                texts(lines@) == changed + removed_lines(cur, old_rules.take(j as int)),
            decreases prev.rules.len() - j,
        {
            let p = &prev.rules[j];
            assert(old_rules.take(j + 1).drop_last() =~= old_rules.take(j as int));
            assert(old_rules.take(j + 1).last() == p@);
            match find_key(&self.rules, p) {
                None => {
                    push_line(&mut lines, "- rule on color ", p.on_target, "");
                    proof {
                        reveal_strlit("");
                    }
                    assert(texts(lines@) =~= changed + removed_lines(cur, old_rules.take(j + 1)));
                },
                Some(_) => {
                    assert(texts(lines@) =~= changed + removed_lines(cur, old_rules.take(j + 1)));
                },
            }
            j = j + 1;
        }
        assert(old_rules.take(prev.rules.len() as int) =~= old_rules);
        if !crate::grid::rows_equal(&self.goal_absent_colors, &prev.goal_absent_colors) {
            let mut line = String::new();
            push_str(&mut line, "~ goal predicate: absent");
            push_color_list(&mut line, &prev.goal_absent_colors);
            push_str(&mut line, " -> absent");
            push_color_list(&mut line, &self.goal_absent_colors);
            let ghost before = lines@;
            lines.push(line);
            assert(texts(lines@) =~= texts(before).push(line@));
        }
        assert(texts(lines@) =~= diff_lines(self@, prev@));
        lines
    }
}

/// A rule's version found from position `j` on, when `rules[k]` (with
/// `j <= k`) is a version of `r`, is a version of `r` standing no later than
/// `k`.
proof fn lemma_key_match_found(rules: Seq<RuleView>, r: RuleView, j: int, k: int)
    requires
        0 <= j <= k < rules.len(),
        same_key(rules[k], r),
    ensures
        exists|i: int|
            j <= i <= k && same_key(#[trigger] rules[i], r) && key_match_from(rules, r, j) == Some(
                rules[i],
            ),
    decreases k - j,
{
    if !same_key(rules[j], r) {
        lemma_key_match_found(rules, r, j + 1, k);
    }
}

/// A program compared with itself shows no difference, provided no two of
/// its rules are versions of one another with different effects.
pub proof fn lemma_diff_self_empty(p: ProgramView)
    requires
        forall|i: int, j: int|
            0 <= i < j < p.rules.len() && same_key(#[trigger] p.rules[i], #[trigger] p.rules[j])
                ==> p.rules[i].effect == p.rules[j].effect,
    ensures
        diff_lines(p, p) == Seq::<Seq<char>>::empty(),
{
    assert forall|n: int| 0 <= n <= p.rules.len() implies change_lines(#[trigger] p.rules.take(n), p.rules)
        == Seq::<Seq<char>>::empty() by {
        lemma_change_lines_self(p, n);
    }
    assert forall|n: int| 0 <= n <= p.rules.len() implies removed_lines(p.rules, #[trigger] p.rules.take(n))
        == Seq::<Seq<char>>::empty() by {
        lemma_removed_lines_self(p, n);
    }
    assert(p.rules.take(p.rules.len() as int) =~= p.rules);
}

proof fn lemma_change_lines_self(p: ProgramView, n: int)
    requires
        0 <= n <= p.rules.len(),
        forall|i: int, j: int|
            0 <= i < j < p.rules.len() && same_key(#[trigger] p.rules[i], #[trigger] p.rules[j])
                ==> p.rules[i].effect == p.rules[j].effect,
    ensures
        change_lines(p.rules.take(n), p.rules) == Seq::<Seq<char>>::empty(),
    decreases n,
{
    if n > 0 {
        lemma_change_lines_self(p, n - 1);
        assert(p.rules.take(n).drop_last() =~= p.rules.take(n - 1));
        let r = p.rules[n - 1];
        lemma_key_match_found(p.rules, r, 0, n - 1);
        assert(change_line(r, p.rules) =~= Seq::<Seq<char>>::empty());
        assert(change_lines(p.rules.take(n), p.rules) =~= Seq::<Seq<char>>::empty());
    }
}

proof fn lemma_removed_lines_self(p: ProgramView, n: int)
    requires
        0 <= n <= p.rules.len(),
    ensures
        removed_lines(p.rules, p.rules.take(n)) == Seq::<Seq<char>>::empty(),
    decreases n,
{
    if n > 0 {
        lemma_removed_lines_self(p, n - 1);
        assert(p.rules.take(n).drop_last() =~= p.rules.take(n - 1));
        lemma_key_match_found(p.rules, p.rules[n - 1], 0, n - 1);
        assert(removed_lines(p.rules, p.rules.take(n)) =~= Seq::<Seq<char>>::empty());
    }
}

} // verus!

verus! {

impl CellWrite {
    /// The same write.
    pub fn copied(&self) -> (w: CellWrite)
        ensures
            w == *self,
    {
        CellWrite { x: self.x, y: self.y, color: self.color }
    }
}

impl Effect {
    /// A copy of this effect.
    pub fn copied(&self) -> (e: Effect)
        ensures
            e@ == self@,
    {
        let mut writes: Vec<CellWrite> = Vec::new();
        let mut i: usize = 0;
        while i < self.writes.len()
            invariant
                i <= self.writes.len(),
                writes@ == self.writes@.take(i as int),
            decreases self.writes.len() - i,
        {
            writes.push(self.writes[i].copied());
            i = i + 1;
            assert(writes@ =~= self.writes@.take(i as int));
        }
        assert(self.writes@.take(self.writes.len() as int) =~= self.writes@);
        Effect {
            player_advances: self.player_advances,
            push: self.push,
            win: self.win,
            dead: self.dead,
            writes,
            writes_when_beyond: self.writes_when_beyond,
        }
    }
}

impl Rule {
    /// A copy of this rule.
    pub fn copied(&self) -> (r: Rule)
        ensures
            r@ == self@,
    {
        let beyond_any_of = match &self.beyond_any_of {
            Some(v) => Some(crate::grid::copy_row(v)),
            None => None,
        };
        Rule {
            on_target: self.on_target,
            beyond_any_of,
            note: owned(self.note.as_str()),
            effect: self.effect.copied(),
        }
    }
}

impl RuleProgram {
    /// A copy of this program.
    pub fn copied(&self) -> (p: RuleProgram)
        ensures
            p@ == self@,
    {
        let mut rules: Vec<Rule> = Vec::new();
        let mut i: usize = 0;
        while i < self.rules.len()
            invariant
                i <= self.rules.len(),
                rule_views(rules@) == rule_views(self.rules@).take(i as int),
            decreases self.rules.len() - i,
        {
            let r = self.rules[i].copied();
            let ghost before = rules@;
            rules.push(r);
            assert(rule_views(rules@) =~= rule_views(before).push(r@));
            i = i + 1;
            assert(rule_views(rules@) =~= rule_views(self.rules@).take(i as int));
        }
        assert(rule_views(self.rules@).take(self.rules.len() as int) =~= rule_views(self.rules@));
        RuleProgram { rules, goal_absent_colors: crate::grid::copy_row(&self.goal_absent_colors) }
    }
}

} // verus!

verus! {

/// Whether write `w` names cell `(x, y)`.
pub open spec fn lands_on(w: CellWrite, x: int, y: int) -> bool {
    w.x as int == x && w.y as int == y
}

/// Some write of `ws` names cell `(x, y)`.
pub open spec fn named(ws: Seq<CellWrite>, x: int, y: int) -> bool {
    exists|k: int| 0 <= k < ws.len() && #[trigger] lands_on(ws[k], x, y)
}

/// Writes keep the board's shape; a cell of the board that some write names
/// takes the colour of the last write that names it, and every other cell
/// keeps its colour. A write off the board (outside the first row's width or
/// its own row) changes nothing.
pub proof fn lemma_writes_land(b: Seq<Seq<u8>>, ws: Seq<CellWrite>)
    ensures
        apply_writes(b, ws).len() == b.len(),
        forall|y: int| 0 <= y < b.len() ==> #[trigger] apply_writes(b, ws)[y].len() == b[y].len(),
        forall|k: int, x: int, y: int|
            0 <= k < ws.len() && #[trigger] lands_on(ws[k], x, y) && in_bounds(b, x, y) && (forall|j: int|
                k < j < ws.len() ==> !#[trigger] lands_on(ws[j], x, y)) ==> apply_writes(b, ws)[y][x]
                == ws[k].color,
        forall|x: int, y: int|
            #![trigger apply_writes(b, ws)[y][x]]
            0 <= y < b.len() && 0 <= x < b[y].len() && !(in_bounds(b, x, y) && named(ws, x, y))
                ==> apply_writes(b, ws)[y][x] == b[y][x],
    decreases ws.len(),
{
    if ws.len() > 0 {
        let rest = ws.drop_last();
        lemma_writes_land(b, rest);
        let b2 = apply_writes(b, rest);
        let w = ws.last();
        assert(b2.len() > 0 ==> b2[0].len() == b[0].len());
        assert forall|x: int, y: int| in_bounds(b2, x, y) == in_bounds(b, x, y) by {
            if 0 <= y < b.len() {
                assert(b2[y].len() == b[y].len());
                assert(b2[0].len() == b[0].len());
            }
        }
        assert forall|k: int, x: int, y: int|
            0 <= k < ws.len() && #[trigger] lands_on(ws[k], x, y) && in_bounds(b, x, y) && (forall|j: int|
                k < j < ws.len() ==> !#[trigger] lands_on(ws[j], x, y)) implies apply_writes(b, ws)[y][x]
            == ws[k].color by {
            if k < ws.len() - 1 {
                assert(!lands_on(ws[ws.len() - 1], x, y));
                assert(rest[k] == ws[k]);
                assert forall|j: int| k < j < rest.len() implies !#[trigger] lands_on(rest[j], x, y) by {
                    assert(rest[j] == ws[j]);
                }
            }
        }
        assert forall|x: int, y: int|
            #![trigger apply_writes(b, ws)[y][x]]
            0 <= y < b.len() && 0 <= x < b[y].len() && !(in_bounds(b, x, y) && named(ws, x, y))
            implies apply_writes(b, ws)[y][x] == b[y][x] by {
            if in_bounds(b, x, y) {
                assert(!lands_on(ws[ws.len() - 1], x, y));
                assert forall|k: int| 0 <= k < rest.len() implies !#[trigger] lands_on(rest[k], x, y) by {
                    assert(rest[k] == ws[k]);
                    assert(!lands_on(ws[k], x, y));
                }
                assert(!named(rest, x, y));
            }
            assert(b2[y][x] == b[y][x]);
            if in_bounds(b2, w.x as int, w.y as int) {
                assert(!lands_on(w, x, y));
                assert(apply_writes(b, ws) == set_cell_spec(b2, w.x as int, w.y as int, w.color));
            } else {
                assert(apply_writes(b, ws) == b2);
            }
        }
    } else {
        assert(apply_writes(b, ws) == b);
    }
}


/// Rule `k` of `rules` matches a move into cell `(tx, ty)` of `b` whose
/// further neighbour is `(bx, by)`: its colour is the target's, and its
/// guard, if any, lists the colour of that neighbour, which must lie on the
/// board.
pub open spec fn matches_move(r: RuleView, b: Seq<Seq<u8>>, tx: int, ty: int, bx: int, by: int) -> bool {
    &&& r.on_target == b[ty][tx]
    &&& r.beyond_any_of matches Some(allowed) ==> in_bounds(b, bx, by) && allowed.contains(b[by][bx])
}

/// A move that no rule matches is blocked: the board stays as it is and no
/// flag is raised.
pub proof fn lemma_step_blocked(p: ProgramView, b: Seq<Seq<u8>>, a: Seq<char>, px: int, py: int)
    requires
        player_of(b) == Some((px, py)),
        in_bounds(b, px + action_delta(a).0, py + action_delta(a).1),
        forall|k: int|
            0 <= k < p.rules.len() ==> !matches_move(
                #[trigger] p.rules[k],
                b,
                px + action_delta(a).0,
                py + action_delta(a).1,
                px + 2 * action_delta(a).0,
                py + 2 * action_delta(a).1,
            ),
    ensures
        program_step(p, b, a) == plain(b),
{
    reveal(program_step);
    let (dx, dy) = action_delta(a);
    let tx = px + dx;
    let ty = py + dy;
    let beyond = if in_bounds(b, tx + dx, ty + dy) {
        Some(b[ty + dy][tx + dx])
    } else {
        None
    };
    assert forall|k: int| 0 <= k < p.rules.len() implies !fires(#[trigger] p.rules[k], b[ty][tx], beyond) by {
        assert(!matches_move(p.rules[k], b, tx, ty, px + 2 * dx, py + 2 * dy));
    }
}

/// The step is decided by the first rule that matches the move, whatever
/// rules on the same colour come before it with a guard that fails. Its
/// effect sets the flags it names; a push moves the target's occupant one
/// cell further, the player onto the target and floor behind it, and is
/// blocked when that further cell is off the board; an advance moves the
/// player onto the target, leaving floor behind; then the effect's writes
/// land on the board, always when they have no condition, and after a push
/// onto a cell of the named colour when they have one.
pub proof fn lemma_step_first_match(p: ProgramView, b: Seq<Seq<u8>>, a: Seq<char>, px: int, py: int, k: int)
    requires
        player_of(b) == Some((px, py)),
        in_bounds(b, px + action_delta(a).0, py + action_delta(a).1),
        0 <= k < p.rules.len(),
        matches_move(
            p.rules[k],
            b,
            px + action_delta(a).0,
            py + action_delta(a).1,
            px + 2 * action_delta(a).0,
            py + 2 * action_delta(a).1,
        ),
        forall|j: int|
            0 <= j < k ==> !matches_move(
                #[trigger] p.rules[j],
                b,
                px + action_delta(a).0,
                py + action_delta(a).1,
                px + 2 * action_delta(a).0,
                py + 2 * action_delta(a).1,
            ),
    ensures
        ({
            let (dx, dy) = action_delta(a);
            let (tx, ty) = (px + dx, py + dy);
            let (bx, by) = (tx + dx, ty + dy);
            let e = p.rules[k].effect;
            let o = program_step(p, b, a);
            let moved = if e.push {
                set_cell_spec(set_cell_spec(set_cell_spec(b, bx, by, b[ty][tx]), tx, ty, 1), px, py, 0)
            } else if e.player_advances {
                set_cell_spec(set_cell_spec(b, px, py, 0), tx, ty, 1)
            } else {
                b
            };
            let writes_land = match e.writes_when_beyond {
                None => true,
                Some(c) => e.push && in_bounds(b, bx, by) && b[by][bx] == c,
            };
            if e.push && !in_bounds(b, bx, by) {
                o == plain(b)
            } else {
                &&& o.win == e.win
                &&& o.dead == e.dead
                &&& !o.level_up
                &&& o.grid == if writes_land {
                    apply_writes(moved, e.writes)
                } else {
                    moved
                }
            }
        }),
{
    reveal(program_step);
    let (dx, dy) = action_delta(a);
    let tx = px + dx;
    let ty = py + dy;
    let beyond = if in_bounds(b, tx + dx, ty + dy) {
        Some(b[ty + dy][tx + dx])
    } else {
        None
    };
    assert(fires(p.rules[k], b[ty][tx], beyond));
    assert forall|j: int| 0 <= j < k implies !fires(#[trigger] p.rules[j], b[ty][tx], beyond) by {
        assert(!matches_move(p.rules[j], b, tx, ty, px + 2 * dx, py + 2 * dy));
    }
    lemma_first_firing(p.rules, b[ty][tx], beyond, k);
}

proof fn lemma_concat_contains(s1: Seq<Seq<char>>, s2: Seq<Seq<char>>, x: Seq<char>)
    ensures
        (s1 + s2).contains(x) == (s1.contains(x) || s2.contains(x)),
{
    let s = s1 + s2;
    if s.contains(x) {
        let i = choose|i: int| 0 <= i < s.len() && s[i] == x;
        if i < s1.len() {
            assert(s1[i] == x);
        } else {
            assert(s2[i - s1.len()] == x);
        }
    }
    if s1.contains(x) {
        let i = choose|i: int| 0 <= i < s1.len() && s1[i] == x;
        assert(s[i] == x);
    }
    if s2.contains(x) {
        let i = choose|i: int| 0 <= i < s2.len() && s2[i] == x;
        assert(s[s1.len() + i] == x);
    }
}

proof fn lemma_flag_word_contains(on: bool, w: Seq<char>, x: Seq<char>)
    ensures
        flag_word(on, w).contains(x) == (on && w == x),
{
    if on {
        assert(flag_word(on, w)[0] == w);
    }
}

/// The words of an effect in the pretty form name exactly the flags it sets
/// (`push`, `advance`, `win`, `dead`), and `block` stands there exactly when
/// the effect sets no flag and has no writes.
pub proof fn lemma_effect_words_name_flags(e: EffectView)
    ensures
        effect_words(e).contains("push"@) == e.push,
        effect_words(e).contains("advance"@) == e.player_advances,
        effect_words(e).contains("win"@) == e.win,
        effect_words(e).contains("dead"@) == e.dead,
        effect_words(e).contains("block"@) == (!e.push && !e.player_advances && !e.win && !e.dead
            && e.writes.len() == 0),
{
    reveal_strlit("push");
    reveal_strlit("advance");
    reveal_strlit("win");
    reveal_strlit("dead");
    reveal_strlit("block");
    reveal_strlit("writes ");
    let words: Seq<Seq<char>> = seq!["push"@, "advance"@, "win"@, "dead"@, "block"@];
    assert(words[0][0] == 'p' && words[1][0] == 'a' && words[2][0] == 'w' && words[3][0] == 'd'
        && words[4][0] == 'b');
    assert(words[2].len() == 3 && words[2][1] == 'i');
    let a1 = flag_word(e.push, "push"@);
    let a2 = flag_word(e.player_advances, "advance"@);
    let a3 = flag_word(e.win, "win"@);
    let a4 = flag_word(e.dead, "dead"@);
    let a5 = writes_word(e);
    let all = a1 + a2 + a3 + a4 + a5;
    if a5.len() > 0 {
        let w = a5[0];
        assert(w.take(7) =~= "writes "@) by {
            let rest = join(e.writes.map_values(|w: CellWrite| write_text(w)), ","@) + match e.writes_when_beyond {
                Some(c) => " when beyond="@ + decimal(c as nat),
                None => Seq::empty(),
            };
            assert(w == "writes "@ + rest);
        }
        assert(w[1] == 'r');
        assert(w.len() >= 7);
    }
    assert forall|x: Seq<char>| words.contains(x) implies all.contains(x) == (a1.contains(x) || a2.contains(x)
        || a3.contains(x) || a4.contains(x)) by {
        lemma_concat_contains(a1, a2, x);
        lemma_concat_contains(a1 + a2, a3, x);
        lemma_concat_contains(a1 + a2 + a3, a4, x);
        lemma_concat_contains(a1 + a2 + a3 + a4, a5, x);
        if a5.len() > 0 {
            assert(a5.len() == 1);
            if a5.contains(x) {
                assert(a5[0] == x);
                let i = choose|i: int| 0 <= i < words.len() && words[i] == x;
                assert(x.len() < 7 || x[1] != 'r');
            }
        }
    }
    assert(words.contains("push"@) && words[0] == "push"@);
    assert(words[1] == "advance"@ && words[2] == "win"@ && words[3] == "dead"@ && words[4] == "block"@);
    assert(words.contains(words[1]) && words.contains(words[2]) && words.contains(words[3]) && words.contains(words[4]));
    assert forall|i: int| 0 <= i < 5 implies {
        let x = #[trigger] words[i];
        &&& a1.contains(x) == (e.push && i == 0)
        &&& a2.contains(x) == (e.player_advances && i == 1)
        &&& a3.contains(x) == (e.win && i == 2)
        &&& a4.contains(x) == (e.dead && i == 3)
    } by {
        lemma_flag_word_contains(e.push, "push"@, words[i]);
        lemma_flag_word_contains(e.player_advances, "advance"@, words[i]);
        lemma_flag_word_contains(e.win, "win"@, words[i]);
        lemma_flag_word_contains(e.dead, "dead"@, words[i]);
    }
    if all.len() == 0 {
        assert(effect_words(e) == seq!["block"@]);
        assert(seq!["block"@][0] == "block"@);
        assert(!e.push && !e.player_advances && !e.win && !e.dead);
        assert(a5.len() == 0);
    } else {
        assert(effect_words(e) == all);
        assert(!all.contains("block"@));
    }
}

proof fn lemma_key_match_at(rules: Seq<RuleView>, r: RuleView, i: int, j: int)
    requires
        0 <= i <= j < rules.len(),
        same_key(rules[j], r),
        forall|m: int| i <= m < j ==> !same_key(#[trigger] rules[m], r),
    ensures
        key_match_from(rules, r, i) == Some(rules[j]),
    decreases j - i,
{
    if i < j {
        lemma_key_match_at(rules, r, i + 1, j);
    }
}

proof fn lemma_change_lines_hold(cur: Seq<RuleView>, prev: Seq<RuleView>, k: int, x: Seq<char>)
    requires
        0 <= k < cur.len(),
        change_line(cur[k], prev).contains(x),
    ensures
        change_lines(cur, prev).contains(x),
    decreases cur.len(),
{
    let c = change_lines(cur, prev);
    let front = change_lines(cur.drop_last(), prev);
    let tail = change_line(cur.last(), prev);
    assert(c == front + tail);
    if k == cur.len() - 1 {
        let i = choose|i: int| 0 <= i < tail.len() && tail[i] == x;
        assert(c[front.len() + i] == x);
    } else {
        assert(cur.drop_last()[k] == cur[k]);
        lemma_change_lines_hold(cur.drop_last(), prev, k, x);
        let i = choose|i: int| 0 <= i < front.len() && front[i] == x;
        assert(c[i] == x);
    }
}

/// A rule of the revised program whose first version in the previous program
/// (the first rule there on the same colour with the same guard) has an
/// effect that differs in anything (a flag, the writes or their condition)
/// is reported as changed.
pub proof fn lemma_diff_reports_effect_change(cur: ProgramView, prev: ProgramView, k: int, j: int)
    requires
        0 <= k < cur.rules.len(),
        0 <= j < prev.rules.len(),
        prev.rules[j].on_target == cur.rules[k].on_target,
        prev.rules[j].beyond_any_of == cur.rules[k].beyond_any_of,
        forall|i: int|
            0 <= i < j ==> !((#[trigger] prev.rules[i]).on_target == cur.rules[k].on_target
                && prev.rules[i].beyond_any_of == cur.rules[k].beyond_any_of),
        prev.rules[j].effect.player_advances != cur.rules[k].effect.player_advances
            || prev.rules[j].effect.push != cur.rules[k].effect.push || prev.rules[j].effect.win
            != cur.rules[k].effect.win || prev.rules[j].effect.dead != cur.rules[k].effect.dead
            || prev.rules[j].effect.writes != cur.rules[k].effect.writes
            || prev.rules[j].effect.writes_when_beyond != cur.rules[k].effect.writes_when_beyond,
    ensures
        diff_lines(cur, prev).contains(
            "~ rule on color "@ + decimal(cur.rules[k].on_target as nat) + " effect changed"@,
        ),
{
    let r = cur.rules[k];
    let x = "~ rule on color "@ + decimal(r.on_target as nat) + " effect changed"@;
    assert forall|m: int| 0 <= m < j implies !same_key(#[trigger] prev.rules[m], r) by {}
    lemma_key_match_at(prev.rules, r, 0, j);
    assert(prev.rules[j].effect != r.effect);
    assert(change_line(r, prev.rules) == seq![x]);
    assert(seq![x][0] == x);
    lemma_change_lines_hold(cur.rules, prev.rules, k, x);
    let c = change_lines(cur.rules, prev.rules);
    let i = choose|i: int| 0 <= i < c.len() && c[i] == x;
    let d = diff_lines(cur, prev);
    assert(d[i] == x);
}

proof fn lemma_no_key_match(rules: Seq<RuleView>, r: RuleView, i: int)
    requires
        0 <= i,
        forall|m: int| 0 <= m < rules.len() ==> !same_key(#[trigger] rules[m], r),
    ensures
        key_match_from(rules, r, i) is None,
    decreases rules.len() - i,
{
    if i < rules.len() {
        lemma_no_key_match(rules, r, i + 1);
    }
}

proof fn lemma_removed_lines_hold(cur: Seq<RuleView>, prev: Seq<RuleView>, j: int)
    requires
        0 <= j < prev.len(),
        key_match_from(cur, prev[j], 0) is None,
    ensures
        removed_lines(cur, prev).contains("- rule on color "@ + decimal(prev[j].on_target as nat)),
    decreases prev.len(),
{
    let x = "- rule on color "@ + decimal(prev[j].on_target as nat);
    let front = removed_lines(cur, prev.drop_last());
    let all = removed_lines(cur, prev);
    if j == prev.len() - 1 {
        assert(all == front + seq![x]);
        assert(all[front.len() as int] == x);
    } else {
        assert(prev.drop_last()[j] == prev[j]);
        lemma_removed_lines_hold(cur, prev.drop_last(), j);
        let i = choose|i: int| 0 <= i < front.len() && front[i] == x;
        assert(all[i] == x);
    }
}

/// A rule of the revised program that no rule of the previous program
/// shares colour and guard with is reported as added; a rule of the
/// previous program that no revised rule shares colour and guard with is
/// reported as removed; and a changed goal predicate is reported with both
/// colour lists.
pub proof fn lemma_diff_reports_added_removed_goal(cur: ProgramView, prev: ProgramView)
    ensures
        forall|k: int|
            0 <= k < cur.rules.len() && (forall|i: int|
                0 <= i < prev.rules.len() ==> !((#[trigger] prev.rules[i]).on_target
                    == cur.rules[k].on_target && prev.rules[i].beyond_any_of
                    == cur.rules[k].beyond_any_of)) ==> diff_lines(cur, prev).contains(
                "+ rule on color "@ + decimal((#[trigger] cur.rules[k]).on_target as nat),
            ),
        forall|j: int|
            0 <= j < prev.rules.len() && (forall|i: int|
                0 <= i < cur.rules.len() ==> !((#[trigger] cur.rules[i]).on_target
                    == prev.rules[j].on_target && cur.rules[i].beyond_any_of
                    == prev.rules[j].beyond_any_of)) ==> diff_lines(cur, prev).contains(
                "- rule on color "@ + decimal((#[trigger] prev.rules[j]).on_target as nat),
            ),
        cur.goal_absent_colors != prev.goal_absent_colors ==> diff_lines(cur, prev).contains(
            "~ goal predicate: absent"@ + list_text(prev.goal_absent_colors) + " -> absent"@ + list_text(
                cur.goal_absent_colors,
            ),
        ),
{
    let d = diff_lines(cur, prev);
    let c = change_lines(cur.rules, prev.rules);
    let rm = removed_lines(cur.rules, prev.rules);
    let g = goal_line(cur.goal_absent_colors, prev.goal_absent_colors);
    assert(d == c + rm + g);
    assert forall|k: int|
        0 <= k < cur.rules.len() && (forall|i: int|
            0 <= i < prev.rules.len() ==> !((#[trigger] prev.rules[i]).on_target
                == cur.rules[k].on_target && prev.rules[i].beyond_any_of
                == cur.rules[k].beyond_any_of)) implies d.contains(
        "+ rule on color "@ + decimal((#[trigger] cur.rules[k]).on_target as nat),
    ) by {
        let r = cur.rules[k];
        let x = "+ rule on color "@ + decimal(r.on_target as nat);
        assert forall|m: int| 0 <= m < prev.rules.len() implies !same_key(#[trigger] prev.rules[m], r) by {}
        lemma_no_key_match(prev.rules, r, 0);
        assert(change_line(r, prev.rules) == seq![x]);
        assert(seq![x][0] == x);
        lemma_change_lines_hold(cur.rules, prev.rules, k, x);
        let i = choose|i: int| 0 <= i < c.len() && c[i] == x;
        assert(d[i] == x);
    }
    assert forall|j: int|
        0 <= j < prev.rules.len() && (forall|i: int|
            0 <= i < cur.rules.len() ==> !((#[trigger] cur.rules[i]).on_target
                == prev.rules[j].on_target && cur.rules[i].beyond_any_of
                == prev.rules[j].beyond_any_of)) implies d.contains(
        "- rule on color "@ + decimal((#[trigger] prev.rules[j]).on_target as nat),
    ) by {
        let r = prev.rules[j];
        assert forall|m: int| 0 <= m < cur.rules.len() implies !same_key(#[trigger] cur.rules[m], r) by {}
        lemma_no_key_match(cur.rules, r, 0);
        lemma_removed_lines_hold(cur.rules, prev.rules, j);
        let x = "- rule on color "@ + decimal(r.on_target as nat);
        let i = choose|i: int| 0 <= i < rm.len() && rm[i] == x;
        assert(d[c.len() as int + i] == x);
    }
    if cur.goal_absent_colors != prev.goal_absent_colors {
        let x = "~ goal predicate: absent"@ + list_text(prev.goal_absent_colors) + " -> absent"@ + list_text(
            cur.goal_absent_colors,
        );
        assert(g == seq![x]);
        assert(d[(c.len() + rm.len()) as int] == x);
    }
}

/// A program's goal is reached exactly when it names colours and none of
/// them is on the board: a program that names none never reaches it, and a
/// single cell of a named colour keeps it unreached.
pub proof fn lemma_goal_by_absence(p: ProgramView, b: Seq<Seq<u8>>)
    ensures
        p.goal_absent_colors.len() == 0 ==> !program_goal(p, b),
        forall|y: int, x: int|
            0 <= y < b.len() && 0 <= x < b[y].len() && p.goal_absent_colors.contains(#[trigger] b[y][x])
                ==> !program_goal(p, b),
        p.goal_absent_colors.len() > 0 && (forall|y: int, x: int|
            0 <= y < b.len() && 0 <= x < b[y].len() ==> !p.goal_absent_colors.contains(#[trigger] b[y][x]))
            ==> program_goal(p, b),
{
}

} // verus!
