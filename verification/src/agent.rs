//! The outer loop: Observe, Deliberate, Execute, Record.
//!
//! Code plane: loop control, stage ordering, Timeline recording, the
//! backtest gate before planning, and the rule that a misprediction returns
//! control to deliberation carrying the counterexample. Inference plane: the
//! [`Deliberator`].

use vstd::prelude::*;

use crate::backtest::{green_spec, report_of, run_backtest, summary_text, BacktestReport, ReportView};
use crate::executor::{
    EnvEvent,
    appended_records, chained, commit_actions, execution_summary_text, predictions, reports_commit, steps_of,
    Environment,
    ExecutionReport,
};
use crate::grid::{board, Grid};
use crate::model::{Outcome, StepRule, WorldModel};
use crate::planner::{
    bfs_rank, bfs_summary_text, first_plan, no_shorter_plan, plan_reaches, plan_view, run_bfs, uses_only,
    GoalVia,
};
use crate::text::{owned, push_str, texts};
use crate::timeline::{Record, Timeline, Transition};

verus! {

/// What a deliberator returns: either a goal-directed plan request or a
/// discriminating experiment, with a note.
pub struct Deliberation {
    pub actions: Vec<String>,
    pub intent: Intent,
    pub note: String,
}

#[derive(Debug, Clone, Copy, PartialEq, Eq, Structural)]
pub enum Intent {
    Plan,
    Experiment,
}

/// One deliberation: what the deliberator was handed (the current grid,
/// the history, the model, the backtest report and the counterexample) and
/// what it answered (the model it left, the actions, the intent and the
/// note).
pub struct DeliberationCall {
    pub current: Seq<Seq<u8>>,
    pub history: Seq<Record>,
    pub model: WorldModel,
    pub report: ReportView,
    pub counterexample: Option<Record>,
    pub model_after: WorldModel,
    pub actions: Seq<Seq<char>>,
    pub intent: Intent,
    pub note: Seq<char>,
}

/// The value of an optional borrowed transition.
pub open spec fn counterexample_view(t: Option<&Transition>) -> Option<Record> {
    match t {
        Some(t) => Some(t@),
        None => None,
    }
}

/// The record of a deliberation handed `current`, `model`, `timeline`,
/// `backtest` and `counterexample`, that left `model_after` and answered `d`.
pub open spec fn call_record(
    current: &Grid,
    model: WorldModel,
    timeline: &Timeline,
    backtest: &BacktestReport,
    counterexample: Option<&Transition>,
    model_after: WorldModel,
    d: &Deliberation,
) -> DeliberationCall {
    DeliberationCall {
        current: board(current),
        history: timeline@,
        model,
        report: backtest@,
        counterexample: counterexample_view(counterexample),
        model_after,
        actions: texts(d.actions@),
        intent: d.intent,
        note: d.note@,
    }
}

/// The inference plane. Sees only the current observation, the Timeline,
/// the current model, backtest reports, and counterexamples, never the
/// environment's hidden rules. A deliberation is handed a model whose
/// revision counter has room for two more revisions.
pub trait Deliberator {
    /// Every deliberation so far, in order. A deliberator keeps this record
    /// as ghost state; one that keeps none cannot meet the contract of
    /// `deliberate`.
    open spec fn spec_calls(&self) -> Seq<DeliberationCall> {
        Seq::empty()
    }

    /// Deliberates once; what it was handed and what it answered join the
    /// record of deliberations.
    fn deliberate(
        &mut self,
        current: &Grid,
        model: &mut WorldModel,
        timeline: &Timeline,
        backtest: &BacktestReport,
        counterexample: Option<&Transition>,
    ) -> (d: Deliberation)
        requires
            old(model).revision + 2 <= u32::MAX,
            backtest.skipped <= backtest.total,
        ensures
            final(self).spec_calls() == old(self).spec_calls().push(
                call_record(current, *old(model), timeline, backtest, counterexample, *final(model), &d),
            ),
    ;
}

#[derive(Debug, Default)]
pub struct EpisodeLog {
    pub backtests: Vec<String>,
    pub bfs_reports: Vec<String>,
    pub executions: Vec<String>,
    pub notes: Vec<String>,
    pub revisions_seen: u32,
    pub won: bool,
    pub env_actions: usize,
}

/// One commit made by the loop, as the loop saw it: whether it was a
/// goal-directed plan, the actions it sent, the report of the execution,
/// the history recorded before it, the rule the model predicted with, and
/// that rule's predictions for the history.
pub struct CommitRecord {
    pub plan: bool,
    pub actions: Seq<Seq<char>>,
    pub report: ExecutionReport,
    pub history: Seq<Record>,
    pub rule: StepRule,
    pub outs: Seq<Outcome>,
    pub summary: Seq<char>,
}

/// Report `r` describes the gated commit of `sent` from `current` that grew
/// the history from `before` to `after`, with the predictions of `model`
/// when its rule is known.
pub open spec fn reported(
    r: ExecutionReport,
    before: Seq<Record>,
    after: Seq<Record>,
    current: Seq<Seq<u8>>,
    sent: Seq<Seq<char>>,
    model: WorldModel,
) -> bool {
    exists|outs: Seq<Outcome>|
        #![trigger reports_commit(r, appended_records(before, after), outs, current, sent)]
        reports_commit(r, appended_records(before, after), outs, current, sent) && (model.step_rule.known()
            ==> outs == predictions(model, appended_records(before, after)))
}

/// The summary line of an execution report.
pub open spec fn report_summary(r: ExecutionReport) -> Seq<char> {
    execution_summary_text(
        r.executed@.len(),
        r.committed@.len(),
        r.mispredictions > 0,
        r.win,
        r.level_up,
        r.counterexample_detail@,
        r.discarded@.len(),
    )
}

/// The tag an execution entry of the log starts with.
pub open spec fn tag_text(plan: bool) -> Seq<char> {
    if plan { "[plan] "@ } else { "[experiment] "@ }
}

/// The backtest gate held for a commit: a goal-directed plan is committed
/// only while the model replays the complete recorded history without a
/// mismatch, or while nothing has been recorded yet.
pub open spec fn gate_held(c: CommitRecord, final_history: Seq<Record>) -> bool {
    &&& final_history.len() >= c.history.len()
    &&& final_history.take(c.history.len() as int) == c.history
    &&& c.outs.len() == c.history.len()
    &&& c.rule.known() ==> c.outs == Seq::new(
        c.history.len(),
        |i: int| c.rule.outcome(c.history[i].before, c.history[i].action),
    )
    &&& c.plan ==> (c.history.len() == 0 || green_spec(report_of(c.history, c.outs)))
}

/// The commits explain the execution entries of a log: one commit per
/// entry, each entry tagged by its intent, and the backtest gate held for
/// every commit against the final history.
pub open spec fn commits_explain(
    commits: Seq<CommitRecord>,
    executions: Seq<String>,
    final_history: Seq<Record>,
) -> bool {
    &&& commits.len() == executions.len()
    &&& forall|k: int| 0 <= k < commits.len() ==> gate_held(#[trigger] commits[k], final_history)
    &&& forall|k: int|
        0 <= k < commits.len() ==> (#[trigger] executions[k])@ == tag_text(commits[k].plan)
            + commits[k].summary
}

/// A commit that reports a win recorded a winning transition last.
proof fn lemma_win_recorded(
    r: ExecutionReport,
    before: Seq<Record>,
    after: Seq<Record>,
    current: Seq<Seq<u8>>,
    plan: Seq<Seq<char>>,
)
    requires
        after.len() >= before.len(),
        exists|outs: Seq<Outcome>|
            reports_commit(r, appended_records(before, after), outs, current, plan),
        r.win,
    ensures
        after.len() > 0,
        after.last().win,
{
    reveal(reports_commit);
    let recs = appended_records(before, after);
    let outs = choose|outs: Seq<Outcome>| reports_commit(r, recs, outs, current, plan);
    assert(recs.len() > 0);
    assert(recs.last() == after.last());
}

proof fn lemma_prefix_trans(a: Seq<Record>, b: Seq<Record>, c: Seq<Record>)
    requires
        b.len() >= a.len(),
        b.take(a.len() as int) == a,
        c.len() >= b.len(),
        c.take(b.len() as int) == b,
    ensures
        c.len() >= a.len(),
        c.take(a.len() as int) == a,
{
    assert(c.take(a.len() as int) =~= a) by {
        assert forall|i: int| 0 <= i < a.len() implies c.take(a.len() as int)[i] == a[i] by {
            assert(c.take(b.len() as int)[i] == b[i]);
            assert(b.take(a.len() as int)[i] == a[i]);
        }
    }
}

proof fn lemma_explain_grow(commits: Seq<CommitRecord>, execs: Seq<String>, tl0: Seq<Record>, tl1: Seq<Record>)
    requires
        commits_explain(commits, execs, tl0),
        tl1.len() >= tl0.len(),
        tl1.take(tl0.len() as int) == tl0,
    ensures
        commits_explain(commits, execs, tl1),
{
    assert forall|k: int| 0 <= k < commits.len() implies gate_held(#[trigger] commits[k], tl1) by {
        assert(gate_held(commits[k], tl0));
        lemma_prefix_trans(commits[k].history, tl0, tl1);
    }
}

proof fn lemma_explain_push(
    commits: Seq<CommitRecord>,
    execs: Seq<String>,
    tl: Seq<Record>,
    c: CommitRecord,
    entry: String,
)
    requires
        commits_explain(commits, execs, tl),
        gate_held(c, tl),
        entry@ == tag_text(c.plan) + c.summary,
    ensures
        commits_explain(commits.push(c), execs.push(entry), tl),
{
    let cs = commits.push(c);
    let es = execs.push(entry);
    assert forall|k: int| 0 <= k < cs.len() implies gate_held(#[trigger] cs[k], tl) by {
        if k < commits.len() {
            assert(cs[k] == commits[k]);
        }
    }
    assert forall|k: int| 0 <= k < cs.len() implies (#[trigger] es[k])@ == tag_text(cs[k].plan) + cs[k].summary by {
        if k < commits.len() {
            assert(cs[k] == commits[k]);
            assert(es[k] == execs[k]);
        }
    }
}

/// How one cycle of the loop ended.
#[derive(PartialEq, Eq, Structural)]
enum CycleEnd {
    Continue,
    Won,
    Limit,
}

/// One cycle of the loop, as the loop saw it: the deliberation and what it
/// was handed (the current grid, the history, the model, the backtest
/// report and the counterexample), the backtest of the revised model, the
/// gate's decision, the plan found by search over the legal actions, the
/// actions sent, the commit made, the interactions with the environment
/// (with the reset after a death), the counterexample handed to the next
/// deliberation, and how the cycle ended.
pub struct CycleRecord {
    pub call: DeliberationCall,
    pub post: ReportView,
    pub planned: bool,
    pub legal: Seq<&'static str>,
    pub bfs_plan: Option<Seq<Seq<char>>>,
    pub bfs_line: Option<Seq<char>>,
    pub sent: Seq<Seq<char>>,
    pub reset: Option<Outcome>,
    pub events: Seq<EnvEvent>,
    pub current: Seq<Seq<u8>>,
    pub history: Seq<Record>,
    pub model: WorldModel,
    pub report: ReportView,
    pub counterexample: Option<Record>,
    pub commit: Option<CommitRecord>,
    pub halted: bool,
    pub dead: bool,
    pub handed_on: Option<Record>,
    pub won: bool,
    pub limit: bool,
    pub current_after: Seq<Seq<u8>>,
    pub history_after: Seq<Record>,
    pub model_after: WorldModel,
}

/// The value of an optional transition.
pub open spec fn transition_view(t: Option<Transition>) -> Option<Record> {
    match t {
        Some(t) => Some(t@),
        None => None,
    }
}

/// `report` is the backtest of `model` over `history`.
pub open spec fn backtest_of(model: WorldModel, history: Seq<Record>, report: ReportView) -> bool {
    exists|outs: Seq<Outcome>|
        #![trigger report_of(history, outs)]
        outs.len() == history.len() && report == report_of(history, outs) && (model.step_rule.known()
            ==> outs == crate::backtest::model_outcomes(model, history))
}

/// A breadth-first search inside `model` from `s` over `actions` found
/// plan `p`: it uses only those actions and, for a known model, reaches the
/// goal, with no shorter plan reaching it and no plan coming before it in
/// breadth-first order.
pub open spec fn bfs_found(model: WorldModel, s: Seq<Seq<u8>>, actions: Seq<&str>, p: Seq<Seq<char>>) -> bool {
    &&& uses_only(p, actions)
    &&& model.known() ==> (exists|via: GoalVia| plan_reaches(model, s, p, via)) && no_shorter_plan(
        model,
        s,
        actions,
        p.len() as int,
    ) && first_plan(model, s, actions, bfs_rank(actions, p))
}

/// The interactions of a cycle: the steps that produced the records it
/// appended, then the reset after a death.
pub open spec fn cycle_events_ok(c: CycleRecord) -> bool {
    let steps = steps_of(appended_records(c.history, c.history_after));
    &&& c.events == match c.reset {
        Some(o) => steps.push(EnvEvent::Reset(o)),
        None => steps,
    }
    &&& c.reset is Some <==> (c.commit is Some && c.dead && !c.won)
    &&& c.current_after == match c.reset {
        Some(o) => o.grid,
        None => if c.commit is Some {
            c.history_after.last().after
        } else {
            c.current
        },
    }
}

/// What a cycle did: deliberation was handed the current grid, the history,
/// the model, the counterexample and the backtest of the model over the
/// history taken just before it, and left the model the cycle ends with; a
/// deliberation that asked for a plan is tagged a plan exactly when the
/// revised model replays the history without a mismatch or nothing has been
/// recorded yet; a cycle tagged a plan sends the plan found by search and
/// nothing else (the deliberation's own actions are ignored, and nothing is
/// sent when the search found no plan), and the search's summary names that
/// plan; any other cycle sends the deliberation's actions; nothing is
/// committed when there is nothing to send or a machine limit stops the
/// cycle; a commit sends those actions in order from the current grid,
/// extends the history, holds the backtest gate, and its report describes
/// the gated execution that appended the new records; the cycle halted, won
/// or died exactly as that report says, and its log entry is the report's
/// summary; a won cycle recorded a win last; a halted commit that neither
/// won nor died hands its counterexample (its last record) on to the next
/// deliberation, and nothing else is handed on.
pub open spec fn cycle_ok(c: CycleRecord) -> bool {
    &&& c.call.current == c.current
    &&& c.call.history == c.history
    &&& c.call.model == c.model
    &&& c.call.report == c.report
    &&& c.call.counterexample == c.counterexample
    &&& c.call.model_after == c.model_after
    &&& c.call.intent == Intent::Plan ==> backtest_of(c.model_after, c.history, c.post)
    &&& c.planned == (c.call.intent == Intent::Plan && (c.history.len() == 0 || green_spec(c.post)))
    &&& c.bfs_plan matches Some(p) ==> c.planned && bfs_found(c.model_after, c.current, c.legal, p)
    &&& c.planned <==> c.bfs_line is Some
    &&& c.bfs_line matches Some(l) ==> exists|via: Option<GoalVia>, e: nat, n: nat|
        #![trigger bfs_summary_text(c.bfs_plan, via, e, n)]
        l == bfs_summary_text(c.bfs_plan, via, e, n)
    &&& c.sent == if c.planned {
        match c.bfs_plan {
            Some(p) => p,
            None => Seq::empty(),
        }
    } else {
        c.call.actions
    }
    &&& c.commit is None <==> (c.sent.len() == 0 || c.limit)
    &&& c.commit matches Some(k) ==> k.plan == c.planned && k.actions == c.sent && c.history_after.len()
        > c.history.len() && chained(
        appended_records(c.history, c.history_after),
        c.history.len() as int,
        c.current,
        c.sent,
    ) && k.summary == report_summary(k.report) && c.halted == (k.report.mispredictions > 0) && c.won
        == k.report.win && c.dead == k.report.dead && reported(
        k.report,
        c.history,
        c.history_after,
        c.current,
        c.sent,
        c.model_after,
    )
    &&& cycle_events_ok(c)
    &&& backtest_of(c.model, c.history, c.report)
    &&& c.history_after.len() >= c.history.len()
    &&& c.history_after.take(c.history.len() as int) == c.history
    &&& c.commit is None ==> c.history_after == c.history && !c.won && !c.halted && !c.dead
    &&& c.commit matches Some(k) ==> k.history == c.history && k.rule == c.model_after.step_rule
        && gate_held(k, c.history_after)
    &&& c.limit ==> c.commit is None
    &&& c.won ==> c.history_after.len() > 0 && c.history_after.last().win
    &&& c.handed_on == (if c.commit is Some && c.halted && !c.won && !c.dead {
        Some(c.history_after.last())
    } else {
        None
    })
    &&& c.halted ==> c.history_after.len() > c.history.len()
}

/// Cycle `b` follows cycle `a`: it starts from the grid, history and model
/// that `a` left, and is handed the counterexample `a` handed on; `a` did
/// not end the loop.
pub open spec fn linked(a: CycleRecord, b: CycleRecord) -> bool {
    &&& b.current == a.current_after
    &&& b.history == a.history_after
    &&& b.model == a.model_after
    &&& b.counterexample == a.handed_on
    &&& !a.won
    &&& !a.limit
}

/// The cycles of a run: the first starts from the run's history and model
/// with no counterexample, each follows the one before, and each did what
/// a cycle does.
pub open spec fn cycles_linked(cycles: Seq<CycleRecord>, history0: Seq<Record>, model0: WorldModel) -> bool {
    &&& cycles.len() > 0 ==> cycles[0].history == history0 && cycles[0].model == model0
        && cycles[0].counterexample is None
    &&& forall|k: int| 1 <= k < cycles.len() ==> linked(cycles[k - 1], #[trigger] cycles[k])
    &&& forall|k: int| 0 <= k < cycles.len() ==> cycle_ok(#[trigger] cycles[k])
}

/// The cycles explain a run's log: one backtest entry per deliberation,
/// holding the summary of the report deliberation was handed; the notes of
/// the deliberations that left one, and the summaries of the searches, in
/// order; no more
/// execution entries than cycles; the last cycle left the final history
/// and model; the run won exactly when its last cycle won; and fewer cycles
/// than the budget means the run won or hit a machine limit (a counter of
/// actions or records, or the model's revision counter, ran out).
pub open spec fn cycles_explain(
    cycles: Seq<CycleRecord>,
    log: EpisodeLog,
    history0: Seq<Record>,
    model0: WorldModel,
    history1: Seq<Record>,
    model1: WorldModel,
    max_cycles: int,
) -> bool {
    &&& cycles_linked(cycles, history0, model0)
    &&& cycles.len() == log.backtests@.len()
    &&& cycles.len() <= max_cycles
    &&& forall|k: int| 0 <= k < cycles.len() ==> (#[trigger] log.backtests@[k])@ == summary_text(cycles[k].report)
    &&& texts(log.notes@) == cycle_notes(cycles)
    &&& texts(log.bfs_reports@) == cycle_bfs_lines(cycles)
    &&& log.executions@.len() <= cycles.len()
    &&& cycles.len() == 0 ==> history1 == history0 && model1 == model0
    &&& cycles.len() > 0 ==> cycles.last().history_after == history1 && cycles.last().model_after == model1
    &&& log.won == (cycles.len() > 0 && cycles.last().won)
    &&& cycles.len() < max_cycles ==> (cycles.len() > 0 && (cycles.last().won || cycles.last().limit))
        || model1.revision + 2 > u32::MAX
}

/// The notes the deliberations of the cycles left, in order, empty ones
/// left out.
pub open spec fn cycle_notes(cycles: Seq<CycleRecord>) -> Seq<Seq<char>>
    decreases cycles.len(),
{
    if cycles.len() == 0 {
        Seq::empty()
    } else if cycles.last().call.note.len() > 0 {
        cycle_notes(cycles.drop_last()).push(cycles.last().call.note)
    } else {
        cycle_notes(cycles.drop_last())
    }
}

/// The summaries of the searches the cycles ran, in order.
pub open spec fn cycle_bfs_lines(cycles: Seq<CycleRecord>) -> Seq<Seq<char>>
    decreases cycles.len(),
{
    if cycles.len() == 0 {
        Seq::empty()
    } else {
        match cycles.last().bfs_line {
            Some(l) => cycle_bfs_lines(cycles.drop_last()).push(l),
            None => cycle_bfs_lines(cycles.drop_last()),
        }
    }
}

/// The deliberations of the cycles, in order.
pub open spec fn cycle_calls(cycles: Seq<CycleRecord>) -> Seq<DeliberationCall> {
    cycles.map_values(|c: CycleRecord| c.call)
}

/// The interactions of the cycles with the environment, in order.
pub open spec fn cycle_events(cycles: Seq<CycleRecord>) -> Seq<EnvEvent>
    decreases cycles.len(),
{
    if cycles.len() == 0 {
        Seq::empty()
    } else {
        cycle_events(cycles.drop_last()) + cycles.last().events
    }
}

proof fn lemma_link_push(cycles: Seq<CycleRecord>, c: CycleRecord, history0: Seq<Record>, model0: WorldModel)
    requires
        cycles_linked(cycles, history0, model0),
        cycles.len() == 0 ==> c.history == history0 && c.model == model0 && c.counterexample is None,
        cycles.len() > 0 ==> linked(cycles.last(), c),
        cycle_ok(c),
    ensures
        cycles_linked(cycles.push(c), history0, model0),
{
    let cs = cycles.push(c);
    assert forall|k: int| 1 <= k < cs.len() implies linked(cs[k - 1], #[trigger] cs[k]) by {
        if k < cycles.len() {
            assert(cs[k] == cycles[k]);
            assert(cs[k - 1] == cycles[k - 1]);
        }
    }
    assert forall|k: int| 0 <= k < cs.len() implies cycle_ok(#[trigger] cs[k]) by {
        if k < cycles.len() {
            assert(cs[k] == cycles[k]);
        }
    }
}

/// A commit of a nonempty plan recorded at least one transition, and its
/// final state is the state after the last one.
proof fn lemma_commit_recorded(
    r: ExecutionReport,
    before: Seq<Record>,
    after: Seq<Record>,
    current: Seq<Seq<u8>>,
    plan: Seq<Seq<char>>,
)
    requires
        after.len() >= before.len(),
        exists|outs: Seq<Outcome>|
            reports_commit(r, appended_records(before, after), outs, current, plan),
        plan.len() > 0,
    ensures
        after.len() > before.len(),
        board(&r.final_state) == after.last().after,
{
    reveal(reports_commit);
    let recs = appended_records(before, after);
    let outs = choose|outs: Seq<Outcome>| reports_commit(r, recs, outs, current, plan);
    assert(recs.len() > 0);
    assert(recs.last() == after.last());
}

/// A commit that halted recorded its counterexample last.
proof fn lemma_halt_recorded(
    r: ExecutionReport,
    before: Seq<Record>,
    after: Seq<Record>,
    current: Seq<Seq<u8>>,
    plan: Seq<Seq<char>>,
)
    requires
        after.len() >= before.len(),
        exists|outs: Seq<Outcome>|
            reports_commit(r, appended_records(before, after), outs, current, plan),
        r.mispredictions > 0,
    ensures
        after.len() > before.len(),
        r.counterexample matches Some(t) && t@ == after.last(),
{
    reveal(reports_commit);
    let recs = appended_records(before, after);
    let outs = choose|outs: Seq<Outcome>| reports_commit(r, recs, outs, current, plan);
    assert(recs.len() > 0);
    assert(recs.last() == after.last());
}

/// Runs the observe-deliberate-execute-record cycle until win or budget.
pub struct SchemaAgent<E: Environment, D: Deliberator> {
    pub env: E,
    pub model: WorldModel,
    pub deliberator: D,
    pub timeline: Timeline,
    pub max_cycles: usize,
}

impl<E: Environment, D: Deliberator> SchemaAgent<E, D> {
    pub fn new(env: E, model: WorldModel, deliberator: D) -> (a: Self)
        ensures
            a.env == env,
            a.model == model,
            a.deliberator == deliberator,
            a.timeline@.len() == 0,
            a.max_cycles == 60,
    {
        SchemaAgent { env, model, deliberator, timeline: Timeline::new(), max_cycles: 60 }
    }

    /// One cycle of the loop: backtest, deliberate, gate, plan, commit,
    /// record.
    #[verifier::spinoff_prover]
    #[verifier::rlimit(40)]
    fn cycle(
        &mut self,
        current: &mut Grid,
        counterexample: &mut Option<Transition>,
        log: &mut EpisodeLog,
    ) -> (r: (CycleEnd, Ghost<CycleRecord>))
        requires
            old(self).model.revision + 2 <= u32::MAX,
        ensures
            r.1@.current == board(&*old(current)),
            r.1@.history == old(self).timeline@,
            r.1@.model == old(self).model,
            r.1@.counterexample == transition_view(*old(counterexample)),
            r.1@.current_after == board(&*final(current)),
            r.1@.history_after == final(self).timeline@,
            r.1@.model_after == final(self).model,
            r.1@.handed_on == transition_view(*final(counterexample)),
            cycle_ok(r.1@),
            final(self).max_cycles == old(self).max_cycles,
            final(self).deliberator.spec_calls() == old(self).deliberator.spec_calls().push(r.1@.call),
            final(self).env.spec_trace() == old(self).env.spec_trace() + r.1@.events,
            final(log).backtests@.len() == old(log).backtests@.len() + 1,
            final(log).backtests@.drop_last() == old(log).backtests@,
            final(log).backtests@.last()@ == summary_text(r.1@.report),
            texts(final(log).bfs_reports@) == match r.1@.bfs_line {
                Some(l) => texts(old(log).bfs_reports@).push(l),
                None => texts(old(log).bfs_reports@),
            },
            texts(final(log).notes@) == if r.1@.call.note.len() > 0 {
                texts(old(log).notes@).push(r.1@.call.note)
            } else {
                texts(old(log).notes@)
            },
            match r.1@.commit {
                Some(k) => final(log).executions@.len() == old(log).executions@.len() + 1
                    && final(log).executions@.drop_last() == old(log).executions@
                    && final(log).executions@.last()@ == tag_text(k.plan) + k.summary,
                None => final(log).executions@ == old(log).executions@,
            },
            final(log).won == (old(log).won || r.1@.won),
            (r.0 == CycleEnd::Won) == r.1@.won,
            (r.0 == CycleEnd::Limit) == r.1@.limit,
    {
        let ghost cur0 = board(&*current);
        let ghost trace0 = self.env.spec_trace();
        let ghost calls0 = self.deliberator.spec_calls();
        let ghost hist0 = self.timeline@;
        let ghost model0 = self.model;
        let ghost ce0 = transition_view(*counterexample);
        // Deliberate
        let report = run_backtest(&self.model, &self.timeline);
        let ghost rep = report@;
        let ghost outs0 = choose|o: Seq<Outcome>|
            o.len() == hist0.len() && rep == report_of(hist0, o) && (model0.step_rule.known() ==> o
                == crate::backtest::model_outcomes(model0, hist0));
        let ghost b0 = log.backtests@;
        log.backtests.push(report.summary());
        assert(log.backtests@.drop_last() =~= b0);
        let mut delib = self.deliberator.deliberate(
            &*current,
            &mut self.model,
            &self.timeline,
            &report,
            counterexample.as_ref(),
        );
        let ghost call = self.deliberator.spec_calls().last();
        proof {
            assert(self.deliberator.spec_calls() =~= calls0.push(call));
        }
        *counterexample = None;
        let ghost notes0 = log.notes@;
        if !delib.note.as_str().is_empty() {
            log.notes.push(owned(delib.note.as_str()));
        }
        proof {
            assert(texts(notes0.push(log.notes@.last())) =~= texts(notes0).push(log.notes@.last()@));
        }
        // Backtest gate: goal-directed plans are trusted only when the
        // model is certified against the complete history.
        let ghost mut outs: Seq<Outcome> = crate::backtest::model_outcomes(self.model, self.timeline@);
        let ghost mut post_v: ReportView = rep;
        let ghost mut legal: Seq<&'static str> = Seq::empty();
        let ghost mut found: Option<Seq<Seq<char>>> = None;
        let ghost mut bfs_line: Option<Seq<char>> = None;
        let ghost bfs0 = log.bfs_reports@;
        if delib.intent == Intent::Plan {
            let post = run_backtest(&self.model, &self.timeline);
            proof {
                outs = choose|o: Seq<Outcome>| o.len() == self.timeline@.len() && post@ == report_of(self.timeline@, o) && (self.model.step_rule.known() ==> o == crate::backtest::model_outcomes(self.model, self.timeline@));
                post_v = post@;
            }
            if !(post.green() || self.timeline.is_empty()) {
                delib.intent = Intent::Experiment;
            } else {
                let acts = self.env.legal_actions();
                proof {
                    legal = acts@;
                }
                let bfs = run_bfs(&self.model, &*current, acts, 100_000);
                let line = bfs.summary();
                proof {
                    bfs_line = Some(line@);
                    assert(texts(bfs0.push(line)) =~= texts(bfs0).push(line@));
                }
                log.bfs_reports.push(line);
                let ghost via = bfs.goal_via;
                let ghost seen_plan = match bfs.plan {
                    Some(ref p) => Some(plan_view(*p)),
                    None => None,
                };
                let ghost e = bfs.expanded as nat;
                let ghost n = bfs.distinct as nat;
                // A plan response's own actions are ignored: the harness
                // plans via in-model search.
                delib.actions = Vec::new();
                assert(texts(delib.actions@) =~= Seq::<Seq<char>>::empty());
                if let Some(plan) = bfs.plan {
                    proof {
                        found = Some(texts(plan@));
                        if self.model.known() {
                            assert(plan_reaches(self.model, cur0, texts(plan@), via.unwrap()));
                        }
                    }
                    delib.actions = plan;
                }
                assert(found == seen_plan);
                assert(line@ == bfs_summary_text(found, via, e, n));
            }
        }
        let is_plan = delib.intent == Intent::Plan;
        let ghost sent = texts(delib.actions@);
        let ghost rec0 = CycleRecord {
            call,
            post: post_v,
            planned: is_plan,
            legal,
            bfs_plan: found,
            bfs_line,
            sent,
            reset: None,
            events: Seq::empty(),
            current: cur0,
            history: hist0,
            model: model0,
            report: rep,
            counterexample: ce0,
            commit: None,
            halted: false,
            dead: false,
            handed_on: None,
            won: false,
            limit: false,
            current_after: cur0,
            history_after: hist0,
            model_after: self.model,
        };
        proof {
            assert(appended_records(hist0, hist0) =~= Seq::<crate::timeline::Record>::empty());
            assert(trace0 + Seq::<EnvEvent>::empty() =~= trace0);
        }
        if delib.actions.len() == 0 {
            proof {
                assert(self.timeline@.take(hist0.len() as int) =~= hist0);
                assert(report_of(hist0, outs0) == rep);
            }
            return (CycleEnd::Continue, Ghost(rec0));
        }
        if self.env.actions_taken() > usize::MAX - delib.actions.len() || self.timeline.len()
            >= usize::MAX - delib.actions.len() {
            proof {
                assert(self.timeline@.take(hist0.len() as int) =~= hist0);
                assert(report_of(hist0, outs0) == rep);
            }
            return (CycleEnd::Limit, Ghost(CycleRecord { limit: true, ..rec0 }));
        }
        // Execute + Record
        let ghost history = self.timeline@;
        let ghost rule = self.model.step_rule;
        let ghost execs0 = log.executions@;
        let result = commit_actions(
            &mut self.env,
            &self.model,
            &mut self.timeline,
            &*current,
            delib.actions.as_slice(),
        );
        let mut entry = String::new();
        if is_plan {
            push_str(&mut entry, "[plan] ");
        } else {
            push_str(&mut entry, "[experiment] ");
        }
        let summary = result.summary();
        push_str(&mut entry, summary.as_str());
        let ghost c = CommitRecord {
            plan: is_plan,
            actions: sent,
            report: result,
            history,
            rule,
            outs,
            summary: summary@,
        };
        proof {
            assert(history.take(history.len() as int) =~= history);
            assert(self.timeline@.take(history.len() as int) == history);
            if rule.known() {
                assert(outs =~= Seq::new(
                    history.len(),
                    |i: int| rule.outcome(history[i].before, history[i].action),
                ));
            }
            assert(gate_held(c, self.timeline@));
            assert(report_of(hist0, outs0) == rep);
        }
        log.executions.push(entry);
        assert(log.executions@.drop_last() =~= execs0);
        let ghost plan_t = texts(delib.actions@);
        let ghost cur_before = board(&*current);
        let win = result.win;
        let dead = result.dead;
        let halted = result.mispredictions > 0;
        proof {
            lemma_commit_recorded(result, history, self.timeline@, cur_before, plan_t);
            let app = appended_records(history, self.timeline@);
            let couts = choose|o: Seq<Outcome>|
                reports_commit(result, app, o, cur_before, plan_t) && (self.model.step_rule.known() ==> o
                    == predictions(self.model, app));
            assert(reports_commit(result, app, couts, cur0, sent));
            if win {
                lemma_win_recorded(result, history, self.timeline@, cur_before, plan_t);
            }
            if halted {
                lemma_halt_recorded(result, history, self.timeline@, cur_before, plan_t);
            }
        }
        let ghost tl_after = self.timeline@;
        let ghost steps = steps_of(appended_records(history, tl_after));
        let ghost rec1 = CycleRecord {
            commit: Some(c),
            halted,
            dead,
            won: win,
            history_after: tl_after,
            events: steps,
            ..rec0
        };
        proof {
            let app = appended_records(rec1.history, rec1.history_after);
            assert(c.summary == report_summary(c.report));
            assert(rec1.halted == (c.report.mispredictions > 0));
            assert(rec1.won == c.report.win && rec1.dead == c.report.dead);
            assert(rec1.current == cur0 && rec1.sent == sent && rec1.history == history);
            assert(reported(c.report, hist0, tl_after, cur0, sent, self.model));
        }
        *current = result.final_state;
        if win {
            log.won = true;
            return (CycleEnd::Won, Ghost(CycleRecord { current_after: board(&*current), ..rec1 }));
        }
        if dead {
            let ghost trace1 = self.env.spec_trace();
            let obs = self.env.reset();
            proof {
                assert(trace0 + steps.push(EnvEvent::Reset(obs@)) =~= trace1.push(EnvEvent::Reset(obs@)));
            }
            *current = obs.grid;
            return (
                CycleEnd::Continue,
                Ghost(
                    CycleRecord {
                        current_after: board(&*current),
                        reset: Some(obs@),
                        events: steps.push(EnvEvent::Reset(obs@)),
                        ..rec1
                    },
                ),
            );
        }
        if halted {
            *counterexample = result.counterexample;
        }
        (
            CycleEnd::Continue,
            Ghost(
                CycleRecord {
                    current_after: board(&*current),
                    handed_on: transition_view(*counterexample),
                    ..rec1
                },
            ),
        )
    }

    /// Resets the environment and runs cycles until a win, a machine limit
    /// or the cycle budget. The run is explained by its cycles: each is
    /// handed what the one before left, the deliberator's record grows by
    /// exactly their deliberations, and the environment's by the reset and
    /// then exactly their interactions.
    #[verifier::spinoff_prover]
    #[verifier::rlimit(60)]
    pub fn run(&mut self) -> (log: EpisodeLog)
        ensures
            final(self).timeline@.len() >= old(self).timeline@.len(),
            final(self).timeline@.take(old(self).timeline@.len() as int) == old(self).timeline@,
            log.revisions_seen == final(self).model.revision,
            log.env_actions == final(self).env.spec_actions_taken(),
            log.backtests@.len() <= old(self).max_cycles,
            log.won ==> final(self).timeline@.len() > 0 && final(self).timeline@.last().win,
            exists|commits: Seq<CommitRecord>|
                #[trigger] commits_explain(commits, log.executions@, final(self).timeline@),
            final(self).env.spec_trace().len() > old(self).env.spec_trace().len(),
            final(self).env.spec_trace().take(old(self).env.spec_trace().len() as int)
                == old(self).env.spec_trace(),
            exists|cycles: Seq<CycleRecord>|
                #[trigger] cycles_explain(
                    cycles,
                    log,
                    old(self).timeline@,
                    old(self).model,
                    final(self).timeline@,
                    final(self).model,
                    old(self).max_cycles as int,
                ) && (final(self).env.spec_trace()[old(self).env.spec_trace().len() as int] matches EnvEvent::Reset(o)
                    && (cycles.len() > 0 ==> cycles[0].current == o.grid)) && final(self).env.spec_trace()
                    == old(self).env.spec_trace().push(
                    final(self).env.spec_trace()[old(self).env.spec_trace().len() as int],
                ) + cycle_events(cycles) && final(self).deliberator.spec_calls()
                    == old(self).deliberator.spec_calls() + cycle_calls(cycles),
    {
        let ghost tl_start = self.timeline@;
        let ghost model_start = self.model;
        let ghost mut commits: Seq<CommitRecord> = Seq::empty();
        let ghost mut cycles: Seq<CycleRecord> = Seq::empty();
        let mut log = EpisodeLog {
            backtests: Vec::new(),
            bfs_reports: Vec::new(),
            executions: Vec::new(),
            notes: Vec::new(),
            revisions_seen: 0,
            won: false,
            env_actions: 0,
        };
        let ghost trace_start = self.env.spec_trace();
        let ghost calls_start = self.deliberator.spec_calls();
        let obs = self.env.reset();
        let ghost first = obs@;
        let ghost trace_reset = self.env.spec_trace();
        let mut current = obs.grid;
        let mut counterexample: Option<Transition> = None;
        let mut cycle: usize = 0;
        proof {
            assert(trace_reset.take(trace_reset.len() as int) =~= trace_reset);
            assert(calls_start + cycle_calls(cycles) =~= calls_start);
            assert(trace_reset + cycle_events(cycles) =~= trace_reset);
            assert(texts(log.notes@) =~= cycle_notes(cycles));
            assert(texts(log.bfs_reports@) =~= cycle_bfs_lines(cycles));
        }
        while cycle < self.max_cycles
            invariant_except_break
                !log.won,
                cycles.len() > 0 ==> !cycles.last().won && !cycles.last().limit,
            invariant
                cycle <= self.max_cycles,
                self.max_cycles == old(self).max_cycles,
                cycles.len() == cycle,
                log.backtests@.len() == cycle,
                self.timeline@.len() >= tl_start.len(),
                self.timeline@.take(tl_start.len() as int) == tl_start,
                tl_start == old(self).timeline@,
                model_start == old(self).model,
                commits_explain(commits, log.executions@, self.timeline@),
                log.won ==> self.timeline@.len() > 0 && self.timeline@.last().win,
                cycles_linked(cycles, tl_start, model_start),
                cycles.len() == 0 ==> counterexample is None && self.timeline@ == tl_start
                    && self.model == model_start,
                cycles.len() > 0 ==> cycles.last().history_after == self.timeline@
                    && cycles.last().model_after == self.model && cycles.last().handed_on
                    == transition_view(counterexample) && cycles.last().current_after == board(&current),
                forall|k: int| 0 <= k < cycles.len() ==> (#[trigger] log.backtests@[k])@ == summary_text(cycles[k].report),
                log.executions@.len() <= cycles.len(),
                log.won == (cycles.len() > 0 && cycles.last().won),
                trace_reset == trace_start.push(EnvEvent::Reset(first)),
                trace_start == old(self).env.spec_trace(),
                self.env.spec_trace().len() >= trace_reset.len(),
                self.env.spec_trace().take(trace_reset.len() as int) == trace_reset,
                cycles.len() == 0 ==> board(&current) == first.grid,
                cycles.len() > 0 ==> cycles[0].current == first.grid,
                calls_start == old(self).deliberator.spec_calls(),
                self.deliberator.spec_calls() == calls_start + cycle_calls(cycles),
                self.env.spec_trace() == trace_reset + cycle_events(cycles),
                texts(log.notes@) == cycle_notes(cycles),
                texts(log.bfs_reports@) == cycle_bfs_lines(cycles),
            ensures
                cycles.len() < self.max_cycles ==> (cycles.len() > 0 && (cycles.last().won || cycles.last().limit))
                    || self.model.revision + 2 > u32::MAX,
            decreases self.max_cycles - cycle,
        {
            if self.model.revision > u32::MAX - 2 {
                break;
            }
            let ghost execs0 = log.executions@;
            let ghost tl0 = self.timeline@;
            let ghost b0 = log.backtests@;
            let ghost cycles0 = cycles;
            let ghost trace_c = self.env.spec_trace();
            let ghost calls_c = self.deliberator.spec_calls();
            let (end, rec) = self.cycle(&mut current, &mut counterexample, &mut log);
            proof {
                assert(self.env.spec_trace().take(trace_reset.len() as int) =~= self.env.spec_trace().take(
                    trace_c.len() as int,
                ).take(trace_reset.len() as int));
            }
            cycle = cycle + 1;
            proof {
                let c = rec@;
                cycles = cycles.push(c);
                assert(cycles.drop_last() =~= cycles0);
                assert(cycle_calls(cycles) =~= cycle_calls(cycles0).push(c.call));
                assert(self.deliberator.spec_calls() =~= calls_start + cycle_calls(cycles));
                assert(cycle_events(cycles) == cycle_events(cycles0) + c.events);
                assert(self.env.spec_trace() =~= trace_reset + cycle_events(cycles));
                assert(texts(log.notes@) =~= cycle_notes(cycles));
                assert(texts(log.bfs_reports@) =~= cycle_bfs_lines(cycles));
                lemma_explain_grow(commits, execs0, tl0, self.timeline@);
                match c.commit {
                    Some(k) => {
                        assert(log.executions@ =~= execs0.push(log.executions@.last()));
                        lemma_explain_push(commits, execs0, self.timeline@, k, log.executions@.last());
                        commits = commits.push(k);
                    },
                    None => {},
                }
                lemma_prefix_trans(tl_start, tl0, self.timeline@);
                assert forall|k: int| 0 <= k < cycles.len() implies (#[trigger] log.backtests@[k])@
                    == summary_text(cycles[k].report) by {
                    if k < cycles0.len() {
                        assert(log.backtests@[k] == b0[k]);
                        assert(cycles[k] == cycles0[k]);
                    }
                }
                lemma_link_push(cycles0, c, tl_start, model_start);
                if c.won {
                    assert(self.timeline@.len() > 0 && self.timeline@.last().win);
                }
            }
            match end {
                CycleEnd::Won => {
                    break;
                },
                CycleEnd::Limit => {
                    break;
                },
                CycleEnd::Continue => {},
            }
        }
        log.revisions_seen = self.model.revision;
        log.env_actions = self.env.actions_taken();
        assert(commits_explain(commits, log.executions@, self.timeline@));
        assert(cycles_explain(
            cycles,
            log,
            tl_start,
            model_start,
            self.timeline@,
            self.model,
            self.max_cycles as int,
        ));
        proof {
            assert(self.env.spec_trace()[trace_start.len() as int] == self.env.spec_trace().take(
                trace_reset.len() as int,
            )[trace_start.len() as int]);
            assert(self.env.spec_trace().take(trace_start.len() as int) =~= trace_reset.take(
                trace_start.len() as int,
            ));
        }
        log
    }
}

} // verus!
