//! The deliberation protocol: the seam where a provider turn sits in the
//! deliberation seat.
//!
//! A turn is a [`DeliberationRequest`] (observation, timeline digest, the
//! current world program) answered by a [`DeliberationResponse`] (an
//! optional revised program, an intent, actions and a note). The library
//! builds requests and applies responses; encoding them as text and calling
//! the provider happen around it.

use vstd::prelude::*;

use crate::agent::{Deliberation, Intent};
use crate::backtest::{summary_text, BacktestReport};
use crate::grid::{board, copy_grid, Grid};
use crate::model::{StepRule, WorldModel};
use crate::program::{ProgramView, RuleProgram};
use crate::text::{owned, push_str, texts};
use crate::timeline::{Record, Timeline, Transition};

verus! {

broadcast use crate::grid::group_board;

/// A record of one recorded transition, for the digest handed to the
/// deliberator (grids included so that it can reason).
#[derive(Debug, Clone)]
pub struct TransitionDigest {
    pub index: usize,
    pub action: String,
    pub state_before: Grid,
    pub state_after: Grid,
    pub level_up: bool,
    pub dead: bool,
    pub win: bool,
}

impl View for TransitionDigest {
    type V = Record;

    open spec fn view(&self) -> Record {
        Record {
            index: self.index as int,
            before: board(&self.state_before),
            action: self.action@,
            after: board(&self.state_after),
            level_up: self.level_up,
            dead: self.dead,
            win: self.win,
        }
    }
}

/// The records a digest sequence carries.
pub open spec fn digest_records(ds: Seq<TransitionDigest>) -> Seq<Record> {
    ds.map_values(|d: TransitionDigest| d@)
}

impl TransitionDigest {
    /// The digest of a recorded transition.
    pub fn from_transition(t: &Transition) -> (d: TransitionDigest)
        ensures
            d@ == t@,
    {
        TransitionDigest {
            index: t.index,
            action: owned(t.action.as_str()),
            state_before: copy_grid(&t.state_before),
            state_after: copy_grid(&t.state_after),
            level_up: t.level_up,
            dead: t.dead,
            win: t.win,
        }
    }
}

/// The digest of a whole timeline, in order.
pub fn digest_timeline(timeline: &Timeline) -> (ds: Vec<TransitionDigest>)
    ensures
        digest_records(ds@) == timeline@,
{
    let n = timeline.len();
    let mut ds: Vec<TransitionDigest> = Vec::new();
    let mut i: usize = 0;
    while i < n
        invariant
            n == timeline@.len(),
            i <= n,
            digest_records(ds@) == timeline@.take(i as int),
        decreases n - i,
    {
        match timeline.get(i) {
            Some(t) => {
                let d = TransitionDigest::from_transition(t);
                let ghost before = ds@;
                ds.push(d);
                assert(digest_records(ds@) =~= digest_records(before).push(d@));
            },
            None => {},
        }
        i = i + 1;
        assert(digest_records(ds@) =~= timeline@.take(i as int));
    }
    assert(timeline@.take(n as int) =~= timeline@);
    ds
}

/// The program a model predicts with: its rule program when it is
/// program-backed, the empty program (everything blocked) otherwise.
pub open spec fn believed_program(m: WorldModel) -> ProgramView {
    match m.step_rule {
        StepRule::Program(p) => p@,
        _ => ProgramView { rules: Seq::empty(), goal_absent_colors: Seq::empty() },
    }
}

/// A copy of the program a model predicts with.
pub fn current_program(model: &WorldModel) -> (p: RuleProgram)
    ensures
        p@ == believed_program(*model),
{
    match model.program() {
        Some(p) => p.copied(),
        None => {
            let p = RuleProgram::vacuous();
            assert(p@.rules =~= Seq::empty());
            assert(p@.goal_absent_colors =~= Seq::empty());
            p
        },
    }
}

/// What the harness hands the deliberator each turn.
#[derive(Debug, Clone)]
pub struct DeliberationRequest {
    pub current_grid: Grid,
    pub legal_actions: Vec<String>,
    /// The full recorded history: ground truth the model must fit.
    pub timeline: Vec<TransitionDigest>,
    /// The current world program, for revision.
    pub current_program: RuleProgram,
    /// The latest backtest summary against the timeline.
    pub backtest_summary: String,
    /// The most recent counterexample, if the last commit halted.
    pub counterexample: Option<TransitionDigest>,
}

/// What the deliberator returns.
#[derive(Debug, Clone)]
pub struct DeliberationResponse {
    /// An optional revised world program, installed as a joint revision.
    pub revised_program: Option<RuleProgram>,
    /// `plan` (certify and search to the goal) or anything else
    /// (`experiment`: commit these actions to gather evidence).
    pub intent: String,
    /// For an experiment: the actions to commit. Ignored for a plan (the
    /// harness plans via in-model search).
    pub actions: Vec<String>,
    pub note: String,
}

/// The four legal actions, in the order the harness offers them.
pub open spec fn legal_action_texts() -> Seq<Seq<char>> {
    seq!["up"@, "down"@, "left"@, "right"@]
}

impl DeliberationRequest {
    /// The request for one turn: the observation, the legal actions, the
    /// digest of the full timeline, the model's program, the backtest
    /// summary and the counterexample, if any.
    pub fn build(
        current: &Grid,
        model: &WorldModel,
        timeline: &Timeline,
        backtest: &BacktestReport,
        counterexample: Option<&Transition>,
    ) -> (r: DeliberationRequest)
        requires
            backtest.skipped <= backtest.total,
        ensures
            board(&r.current_grid) == board(current),
            texts(r.legal_actions@) == legal_action_texts(),
            digest_records(r.timeline@) == timeline@,
            r.current_program@ == believed_program(*model),
            r.backtest_summary@ == summary_text(backtest@),
            match counterexample {
                Some(t) => r.counterexample matches Some(d) && d@ == t@,
                None => r.counterexample is None,
            },
    {
        let mut legal_actions: Vec<String> = Vec::new();
        legal_actions.push(owned("up"));
        legal_actions.push(owned("down"));
        legal_actions.push(owned("left"));
        legal_actions.push(owned("right"));
        assert(texts(legal_actions@) =~= legal_action_texts());
        DeliberationRequest {
            current_grid: copy_grid(current),
            legal_actions,
            timeline: digest_timeline(timeline),
            current_program: current_program(model),
            backtest_summary: backtest.summary(),
            counterexample: match counterexample {
                Some(t) => Some(TransitionDigest::from_transition(t)),
                None => None,
            },
        }
    }
}

/// The description a revision installed by a response is recorded under.
pub open spec fn revision_description(note: Seq<char>) -> Seq<char> {
    if note.len() == 0 {
        "protocol revision"@
    } else {
        note
    }
}

/// The note of a turn whose response could not be read.
pub open spec fn unparseable_note(error: Seq<char>) -> Seq<char> {
    "unparseable deliberation response: "@ + error
}

impl DeliberationResponse {
    /// Applies a response: a revised program is installed (step and goal
    /// jointly) under the response's note, then the intent is read: `plan`
    /// plans, anything else is an experiment with the response's actions.
    pub fn apply(self, model: &mut WorldModel) -> (d: Deliberation)
        requires
            old(model).revision < u32::MAX,
        ensures
            match self.revised_program {
                Some(p) => {
                    &&& final(model).step_rule == StepRule::Program(p)
                    &&& final(model).goal_rule matches crate::model::GoalRule::AbsentColors(c) && c@
                        == p@.goal_absent_colors
                    &&& final(model).revision == old(model).revision + 1
                    &&& final(model).history.deep_view() == old(model).history.deep_view().push(
                        revision_description(self.note@),
                    )
                },
                None => *final(model) == *old(model),
            },
            d.intent == (if self.intent@ == "plan"@ {
                Intent::Plan
            } else {
                Intent::Experiment
            }),
            d.actions == self.actions,
            d.note == self.note,
    {
        let DeliberationResponse { revised_program, intent, actions, note } = self;
        match revised_program {
            Some(prog) => {
                if note.as_str().is_empty() {
                    model.revise_program(prog, "protocol revision");
                    proof {
                        reveal_strlit("protocol revision");
                    }
                } else {
                    model.revise_program(prog, note.as_str());
                }
            },
            None => {},
        }
        let plan = crate::text::str_eq(intent.as_str(), "plan");
        let intent = if plan {
            Intent::Plan
        } else {
            Intent::Experiment
        };
        Deliberation { actions, intent, note }
    }

    /// The turn when the provider's reply could not be read: an experiment
    /// with no actions, noting the error; the loop asks again next cycle.
    pub fn unparseable(error: &str) -> (d: Deliberation)
        ensures
            d.actions@.len() == 0,
            d.intent == Intent::Experiment,
            d.note@ == unparseable_note(error@),
    {
        let mut note = String::new();
        push_str(&mut note, "unparseable deliberation response: ");
        push_str(&mut note, error);
        Deliberation { actions: Vec::new(), intent: Intent::Experiment, note }
    }
}

} // verus!
