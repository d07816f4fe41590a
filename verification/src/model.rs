//! The world model: `step(state, action)` and `is_goal(state)`, revised
//! jointly and recorded.

use vstd::prelude::*;

use std::collections::BTreeMap;

use crate::deliberators::{cart_step, cart_step_spec, predict, semantics_step, Semantics};
use crate::grid::{board, Grid};
use crate::program::{program_goal, program_step, RuleProgram};
use crate::text::owned;

verus! {

/// The mathematical value of a prediction or observation.
pub struct Outcome {
    pub grid: Seq<Seq<u8>>,
    pub level_up: bool,
    pub dead: bool,
    pub win: bool,
}

impl Outcome {
    pub open spec fn terminal(self) -> bool {
        self.level_up || self.dead || self.win
    }
}

/// The outcome with grid `b` and no flag raised.
pub open spec fn plain(b: Seq<Seq<u8>>) -> Outcome {
    Outcome { grid: b, level_up: false, dead: false, win: false }
}

/// The outcome with grid `b` and the `win` flag raised.
pub open spec fn winning(b: Seq<Seq<u8>>) -> Outcome {
    Outcome { grid: b, level_up: false, dead: false, win: true }
}

/// The outcome with grid `b` and the `dead` flag raised.
pub open spec fn lethal(b: Seq<Seq<u8>>) -> Outcome {
    Outcome { grid: b, level_up: false, dead: true, win: false }
}

/// What the model claims the next observation will be.
#[derive(Debug, Clone, PartialEq, Eq)]
pub struct Prediction {
    pub grid: Grid,
    pub level_up: bool,
    pub dead: bool,
    pub win: bool,
}

impl View for Prediction {
    type V = Outcome;

    open spec fn view(&self) -> Outcome {
        Outcome { grid: board(&self.grid), level_up: self.level_up, dead: self.dead, win: self.win }
    }
}

impl Prediction {
    pub fn of(grid: Grid) -> (p: Prediction)
        ensures
            p@ == plain(board(&grid)),
    {
        Prediction { grid, level_up: false, dead: false, win: false }
    }

    pub fn win(grid: Grid) -> (p: Prediction)
        ensures
            p@ == winning(board(&grid)),
    {
        Prediction { grid, level_up: false, dead: false, win: true }
    }

    pub fn dead(grid: Grid) -> (p: Prediction)
        ensures
            p@ == lethal(board(&grid)),
    {
        Prediction { grid, level_up: false, dead: true, win: false }
    }

    pub fn terminal(&self) -> (r: bool)
        ensures
            r == self@.terminal(),
    {
        self.level_up || self.dead || self.win
    }
}

} // verus!

verus! {

/// A step function supplied as a closure by a caller of the library.
/// The library calls it and does not reason about what it returns; the
/// boxed closure is kept opaque, since the verifier does not represent
/// `dyn Fn` values.
#[verifier::external_body]
pub struct ExternalStep {
    f: Box<dyn Fn(&Grid, &str) -> Prediction>,
}

/// A goal predicate supplied as a closure by a caller of the library, kept
/// opaque like [`ExternalStep`].
#[verifier::external_body]
pub struct ExternalGoal {
    f: Box<dyn Fn(&Grid) -> bool>,
}

impl ExternalStep {
    /// Boxes the caller's closure `Fn(&Grid, &str) -> Prediction`.
    #[verifier::external_body]
    pub(crate) fn new<S: Fn(&Grid, &str) -> Prediction + 'static>(step: S) -> ExternalStep {
        ExternalStep { f: Box::new(step) }
    }

    /// Calls the caller's step closure (`Fn::call`); nothing is claimed of
    /// the prediction it returns.
    #[verifier::external_body]
    pub(crate) fn call(&self, state: &Grid, action: &str) -> Prediction {
        (self.f)(state, action)
    }
}

impl ExternalGoal {
    /// Boxes the caller's closure `Fn(&Grid) -> bool`.
    #[verifier::external_body]
    pub(crate) fn new<G: Fn(&Grid) -> bool + 'static>(goal: G) -> ExternalGoal {
        ExternalGoal { f: Box::new(goal) }
    }

    /// Calls the caller's goal closure (`Fn::call`); nothing is claimed of
    /// the answer.
    #[verifier::external_body]
    pub(crate) fn call(&self, state: &Grid) -> bool {
        (self.f)(state)
    }
}

} // verus!

verus! {

broadcast use crate::grid::group_board;

/// The transition rule a world model predicts with.
pub enum StepRule {
    /// "Nothing changes": the zero hypothesis.
    Unchanged,
    /// An interpretable rule program.
    Program(RuleProgram),
    /// A colour-semantics hypothesis.
    Semantics(BTreeMap<u8, Semantics>),
    /// The cart-and-dock representation.
    Cart { dock_cells: Vec<(usize, usize)>, reflow: BTreeMap<(usize, usize), u8>, unified: bool },
    /// A caller-supplied closure.
    External(ExternalStep),
}

/// The goal predicate a world model searches for.
pub enum GoalRule {
    /// Never satisfied.
    Never,
    /// Satisfied when the grid holds none of these colours (empty: never).
    AbsentColors(Vec<u8>),
    /// Satisfied when a cart (4) stands on one of these cells.
    Docked(Vec<(usize, usize)>),
    /// A caller-supplied closure.
    External(ExternalGoal),
}

/// A cart (4) stands on one of the dock cells.
pub open spec fn docked_spec(dock_cells: Seq<(usize, usize)>, b: Seq<Seq<u8>>) -> bool {
    exists|i: int|
        0 <= i < dock_cells.len() && crate::grid::on_board(
            b,
            dock_cells[i].0 as int,
            dock_cells[i].1 as int,
        ) && b[dock_cells[i].1 as int][dock_cells[i].0 as int] == 4
}

impl StepRule {
    /// A rule that predicts with the caller's closure.
    pub fn from_fn<S: Fn(&Grid, &str) -> Prediction + 'static>(step: S) -> (r: StepRule)
        ensures
            r is External,
    {
        StepRule::External(ExternalStep::new(step))
    }

    /// The library can state what this rule predicts.
    pub open spec fn known(&self) -> bool {
        !(self is External)
    }

    /// What this rule predicts for `action` in state `b` (for known rules).
    pub open spec fn outcome(&self, b: Seq<Seq<u8>>, a: Seq<char>) -> Outcome {
        match self {
            StepRule::Unchanged => plain(b),
            StepRule::Program(p) => program_step(p@, b, a),
            StepRule::Semantics(m) => semantics_step(m@, b, a),
            StepRule::Cart { dock_cells, reflow, unified } => cart_step_spec(
                dock_cells@,
                reflow@,
                *unified,
                b,
                a,
            ),
            StepRule::External(_) => arbitrary(),
        }
    }
}

impl GoalRule {
    /// A predicate that answers with the caller's closure.
    pub fn from_fn<G: Fn(&Grid) -> bool + 'static>(goal: G) -> (r: GoalRule)
        ensures
            r is External,
    {
        GoalRule::External(ExternalGoal::new(goal))
    }

    /// The library can state what this predicate answers.
    pub open spec fn known(&self) -> bool {
        !(self is External)
    }

    /// Whether the goal holds in state `b` (for known predicates).
    pub open spec fn holds(&self, b: Seq<Seq<u8>>) -> bool {
        match self {
            GoalRule::Never => false,
            GoalRule::AbsentColors(colors) => program_goal(
                crate::program::ProgramView { rules: Seq::empty(), goal_absent_colors: colors@ },
                b,
            ),
            GoalRule::Docked(cells) => docked_spec(cells@, b),
            GoalRule::External(_) => arbitrary(),
        }
    }
}

/// Holds the current executable hypothesis about the game's mechanism.
/// `revise` swaps step and goal jointly and records the revision.
pub struct WorldModel {
    pub step_rule: StepRule,
    pub goal_rule: GoalRule,
    pub revision: u32,
    pub history: Vec<String>,
}

fn docked(cells: &Vec<(usize, usize)>, state: &Grid) -> (r: bool)
    ensures
        r == docked_spec(cells@, board(state)),
{
    let mut i: usize = 0;
    while i < cells.len()
        invariant
            i <= cells.len(),
            forall|j: int|
                0 <= j < i ==> !(crate::grid::on_board(
                    board(state),
                    #[trigger] cells@[j].0 as int,
                    cells@[j].1 as int,
                ) && board(state)[cells@[j].1 as int][cells@[j].0 as int] == 4),
        decreases cells.len() - i,
    {
        let (x, y) = cells[i];
        if crate::grid::cell_on_board(state, x as i128, y as i128) && state[y][x] == 4 {
            assert(cells@[i as int].0 == x);
            return true;
        }
        i = i + 1;
    }
    false
}

impl WorldModel {
    /// Both rules of the model are ones the library can state.
    pub open spec fn known(&self) -> bool {
        self.step_rule.known() && self.goal_rule.known()
    }

    /// What the model predicts (for known rules).
    pub open spec fn outcome(&self, b: Seq<Seq<u8>>, a: Seq<char>) -> Outcome {
        self.step_rule.outcome(b, a)
    }

    /// Whether the model's goal holds (for known predicates).
    pub open spec fn goal(&self, b: Seq<Seq<u8>>) -> bool {
        self.goal_rule.holds(b)
    }

    /// A model whose step and goal are the caller's closures.
    pub fn new<S, G>(step: S, is_goal: G, description: &str) -> (m: WorldModel) where
        S: Fn(&Grid, &str) -> Prediction + 'static,
        G: Fn(&Grid) -> bool + 'static,

        ensures
            m.step_rule is External,
            m.goal_rule is External,
            m.revision == 0,
            m.history.deep_view() == seq![description@],
    {
        let mut history: Vec<String> = Vec::new();
        history.push(owned(description));
        assert(history.deep_view() =~= seq![description@]);
        WorldModel {
            step_rule: StepRule::External(ExternalStep::new(step)),
            goal_rule: GoalRule::External(ExternalGoal::new(is_goal)),
            revision: 0,
            history,
        }
    }

    /// A model that predicts "nothing changes" and never reaches a goal.
    pub fn vacuous() -> (m: WorldModel)
        ensures
            m.step_rule is Unchanged,
            m.goal_rule is Never,
            m.revision == 0,
            m.history.deep_view() == seq!["vacuous initial model"@],
    {
        let mut history: Vec<String> = Vec::new();
        history.push(owned("vacuous initial model"));
        assert(history.deep_view() =~= seq!["vacuous initial model"@]);
        WorldModel { step_rule: StepRule::Unchanged, goal_rule: GoalRule::Never, revision: 0, history }
    }

    /// A model backed by a rule program: the program's step and goal.
    pub fn from_program(program: RuleProgram, description: &str) -> (m: WorldModel)
        ensures
            m.step_rule == StepRule::Program(program),
            m.goal_rule matches GoalRule::AbsentColors(c) && c@ == program@.goal_absent_colors,
            m.revision == 0,
            m.history.deep_view() == seq![description@],
    {
        let mut history: Vec<String> = Vec::new();
        history.push(owned(description));
        assert(history.deep_view() =~= seq![description@]);
        let colors = crate::grid::copy_row(&program.goal_absent_colors);
        WorldModel {
            step_rule: StepRule::Program(program),
            goal_rule: GoalRule::AbsentColors(colors),
            revision: 0,
            history,
        }
    }

    /// The model's `step(state, action)`.
    pub fn step(&self, state: &Grid, action: &str) -> (p: Prediction)
        ensures
            self.step_rule.known() ==> p@ == self.outcome(board(state), action@),
    {
        match &self.step_rule {
            StepRule::Unchanged => Prediction::of(crate::grid::copy_grid(state)),
            StepRule::Program(p) => p.step(state, action),
            StepRule::Semantics(m) => predict(m, state, action),
            StepRule::Cart { dock_cells, reflow, unified } => cart_step(
                dock_cells,
                reflow,
                *unified,
                state,
                action,
            ),
            StepRule::External(f) => f.call(state, action),
        }
    }

    /// The model's `is_goal(state)`.
    pub fn is_goal(&self, state: &Grid) -> (r: bool)
        ensures
            self.goal_rule.known() ==> r == self.goal(board(state)),
    {
        match &self.goal_rule {
            GoalRule::Never => false,
            GoalRule::AbsentColors(colors) => {
                let p = RuleProgram { rules: Vec::new(), goal_absent_colors: crate::grid::copy_row(colors) };
                assert(p@.goal_absent_colors == colors@);
                assert(p@.rules =~= Seq::empty());
                p.is_goal(state)
            },
            GoalRule::Docked(cells) => docked(cells, state),
            GoalRule::External(f) => f.call(state),
        }
    }

    /// Revises step and/or goal jointly and records the revision.
    pub fn revise(&mut self, step: Option<StepRule>, is_goal: Option<GoalRule>, description: &str)
        requires
            old(self).revision < u32::MAX,
        ensures
            final(self).step_rule == (match step {
                Some(s) => s,
                None => old(self).step_rule,
            }),
            final(self).goal_rule == (match is_goal {
                Some(g) => g,
                None => old(self).goal_rule,
            }),
            final(self).revision == old(self).revision + 1,
            final(self).history.deep_view() == old(self).history.deep_view().push(description@),
    {
        if let Some(s) = step {
            self.step_rule = s;
        }
        if let Some(g) = is_goal {
            self.goal_rule = g;
        }
        self.revision = self.revision + 1;
        self.history.push(owned(description));
        assert(self.history.deep_view() =~= old(self).history.deep_view().push(description@));
    }

    /// Installs a rule program (step and goal) as a joint revision.
    pub fn revise_program(&mut self, program: RuleProgram, description: &str)
        requires
            old(self).revision < u32::MAX,
        ensures
            final(self).step_rule == StepRule::Program(program),
            final(self).goal_rule matches GoalRule::AbsentColors(c) && c@ == program@.goal_absent_colors,
            final(self).revision == old(self).revision + 1,
            final(self).history.deep_view() == old(self).history.deep_view().push(description@),
    {
        let colors = crate::grid::copy_row(&program.goal_absent_colors);
        self.revise(Some(StepRule::Program(program)), Some(GoalRule::AbsentColors(colors)), description);
    }

    /// The rule program backing the model's step, if it is program-backed.
    pub fn program(&self) -> (r: Option<&RuleProgram>)
        ensures
            match self.step_rule {
                StepRule::Program(p) => r == Some(&p),
                _ => r is None,
            },
    {
        match &self.step_rule {
            StepRule::Program(p) => Some(p),
            _ => None,
        }
    }
}

} // verus!
