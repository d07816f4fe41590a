//! commit_actions: the sole channel from thinking to real interaction.
//!
//! The prediction for each step is fixed before the action; every real
//! transition, including a mismatched one, is recorded before any halt; the
//! first mismatch halts, discards the rest of the plan, and surfaces the
//! counterexample.

use vstd::prelude::*;

use crate::backtest::{consistent, flags_agree};
use crate::grid::{board, copy_grid, grids_equal, Grid};
use crate::model::{Outcome, WorldModel};
use crate::text::{copy_texts, decimal, owned, push_decimal, push_str, texts};
use crate::timeline::{appended, Record, Timeline, Transition};

verus! {

broadcast use crate::grid::group_board;

/// What an environment returns per interaction.
#[derive(Debug, Clone, PartialEq, Eq)]
pub struct Observation {
    pub grid: Grid,
    pub level_up: bool,
    pub dead: bool,
    pub win: bool,
}

impl View for Observation {
    type V = Outcome;

    open spec fn view(&self) -> Outcome {
        Outcome { grid: board(&self.grid), level_up: self.level_up, dead: self.dead, win: self.win }
    }
}

impl Observation {
    pub fn of(grid: Grid) -> (o: Observation)
        ensures
            o@ == crate::model::plain(board(&grid)),
    {
        Observation { grid, level_up: false, dead: false, win: false }
    }

    pub fn win(grid: Grid) -> (o: Observation)
        ensures
            o@ == crate::model::winning(board(&grid)),
    {
        Observation { grid, level_up: false, dead: false, win: true }
    }
}

/// One interaction with an environment and what it returned.
pub enum EnvEvent {
    Reset(Outcome),
    Step(Seq<char>, Outcome),
}

/// The interaction that produced a recorded transition: its action and
/// the observed outcome.
pub open spec fn step_of(r: Record) -> EnvEvent {
    EnvEvent::Step(r.action, Outcome { grid: r.after, level_up: r.level_up, dead: r.dead, win: r.win })
}

/// The interactions that produced recorded transitions, in order.
pub open spec fn steps_of(recs: Seq<Record>) -> Seq<EnvEvent>
    decreases recs.len(),
{
    if recs.len() == 0 {
        Seq::empty()
    } else {
        steps_of(recs.drop_last()).push(step_of(recs.last()))
    }
}

/// An environment in the ARC-AGI-3 style: its rules are hidden behind it,
/// and only observations cross.
pub trait Environment {
    /// The number of real actions taken so far.
    spec fn spec_actions_taken(&self) -> nat;

    /// Every interaction so far, in order, with what the environment
    /// returned.
    spec fn spec_trace(&self) -> Seq<EnvEvent>;

    /// Starts over; the reset and its observation join the trace.
    fn reset(&mut self) -> (o: Observation)
        ensures
            final(self).spec_actions_taken() == old(self).spec_actions_taken(),
            final(self).spec_trace() == old(self).spec_trace().push(EnvEvent::Reset(o@)),
    ;

    /// One real action; it counts as one action taken, and the action and
    /// its observation join the trace.
    fn step(&mut self, action: &str) -> (o: Observation)
        requires
            old(self).spec_actions_taken() < usize::MAX,
        ensures
            final(self).spec_actions_taken() == old(self).spec_actions_taken() + 1,
            final(self).spec_trace() == old(self).spec_trace().push(EnvEvent::Step(action@, o@)),
    ;

    fn actions_taken(&self) -> (n: usize)
        ensures
            n == self.spec_actions_taken(),
    ;

    fn legal_actions(&self) -> &[&'static str];
}

#[derive(Debug)]
pub struct ExecutionReport {
    pub committed: Vec<String>,
    pub executed: Vec<String>,
    pub discarded: Vec<String>,
    pub mispredictions: usize,
    pub counterexample: Option<Transition>,
    pub counterexample_detail: String,
    pub final_state: Grid,
    pub win: bool,
    pub level_up: bool,
    pub dead: bool,
}

/// The text naming a misprediction at committed step `i`.
pub open spec fn misprediction_text(flags_ok: bool, i: nat) -> Seq<char> {
    (if flags_ok { "grid misprediction"@ } else { "flag misprediction"@ }) + " at committed step "@
        + decimal(i)
}

/// The records `recs` appended while committing `plan` from `current`:
/// record `k` has index `base + k`, takes action `k` of the plan, and starts
/// where the previous one ended.
pub open spec fn chained(recs: Seq<Record>, base: int, current: Seq<Seq<u8>>, plan: Seq<Seq<char>>) -> bool {
    &&& recs.len() <= plan.len()
    &&& forall|k: int| 0 <= k < recs.len() ==> (#[trigger] recs[k]).index == base + k && recs[k].action == plan[k]
    &&& forall|k: int|
        0 <= k < recs.len() ==> (#[trigger] recs[k]).before == (if k == 0 {
            current
        } else {
            recs[k - 1].after
        })
}

/// Gated execution: every executed step but the last was predicted
/// correctly and was not terminal; the last one either mismatched (a halt),
/// was terminal, or the plan ran out.
pub open spec fn gated(recs: Seq<Record>, outs: Seq<Outcome>, plan_len: nat, halted: bool) -> bool {
    &&& outs.len() == recs.len()
    &&& forall|k: int|
        0 <= k < recs.len() - 1 ==> consistent(#[trigger] outs[k], recs[k]) && !recs[k].terminal()
    &&& recs.len() > 0 ==> (halted <==> !consistent(outs.last(), recs.last()))
    &&& recs.len() == 0 ==> !halted && plan_len == 0
    &&& recs.len() < plan_len ==> recs.len() > 0 && (halted || recs.last().terminal())
}

/// The predictions a known model gives for the records.
pub open spec fn predictions(model: WorldModel, recs: Seq<Record>) -> Seq<Outcome> {
    Seq::new(recs.len(), |k: int| model.outcome(recs[k].before, recs[k].action))
}

/// The records appended to a timeline that grew from `before` to `after`.
pub open spec fn appended_records(before: Seq<Record>, after: Seq<Record>) -> Seq<Record> {
    after.skip(before.len() as int)
}

/// The report describes the gated commit of `plan` from `current` that
/// appended `recs` with predictions `outs`.
#[verifier::opaque]
pub open spec fn reports_commit(
    r: ExecutionReport,
    recs: Seq<Record>,
    outs: Seq<Outcome>,
    current: Seq<Seq<u8>>,
    plan: Seq<Seq<char>>,
) -> bool {
    let n = recs.len();
    let halted = r.mispredictions > 0;
    &&& gated(recs, outs, plan.len(), halted)
    &&& texts(r.committed@) == plan
    &&& texts(r.executed@) == plan.take(n as int)
    &&& texts(r.discarded@) == plan.skip(n as int)
    &&& r.mispredictions <= 1
    &&& board(&r.final_state) == (if n == 0 { current } else { recs.last().after })
    &&& r.win == (n > 0 && recs.last().win)
    &&& r.level_up == (n > 0 && recs.last().level_up)
    &&& r.dead == (n > 0 && recs.last().dead)
    &&& halted ==> (r.counterexample matches Some(t) && t@ == recs.last() && r.counterexample_detail@
        == misprediction_text(flags_agree(outs.last(), recs.last()), (n - 1) as nat))
    &&& !halted ==> r.counterexample is None && r.counterexample_detail@ == Seq::<char>::empty()
}

/// A commit's report counts at most one misprediction, and it halted
/// exactly when it holds a counterexample and exactly when its detail is
/// not empty; the detail names the kind of the misprediction and the step
/// of the plan at which it came.
pub proof fn lemma_report_halt(
    r: ExecutionReport,
    recs: Seq<Record>,
    outs: Seq<Outcome>,
    current: Seq<Seq<u8>>,
    plan: Seq<Seq<char>>,
)
    requires
        reports_commit(r, recs, outs, current, plan),
    ensures
        r.mispredictions <= 1,
        (r.mispredictions > 0) == r.counterexample is Some,
        (r.mispredictions > 0) == (r.counterexample_detail@.len() > 0),
        r.mispredictions > 0 ==> recs.len() > 0 && r.counterexample_detail@ == misprediction_text(
            flags_agree(outs.last(), recs.last()),
            (recs.len() - 1) as nat,
        ),
{
    reveal(reports_commit);
    if r.mispredictions > 0 {
        let d = r.counterexample_detail@;
        let pre = if flags_agree(outs.last(), recs.last()) {
            "grid misprediction"@
        } else {
            "flag misprediction"@
        };
        reveal_strlit("grid misprediction");
        reveal_strlit("flag misprediction");
        assert(pre.len() > 0);
        assert(d.len() >= pre.len());
    }
}

/// The summary line of an execution.
pub open spec fn execution_summary_text(
    executed: nat,
    committed: nat,
    halted: bool,
    win: bool,
    level_up: bool,
    detail: Seq<char>,
    discarded: nat,
) -> Seq<char> {
    if !halted {
        decimal(executed) + "/"@ + decimal(committed) + " executed with 0 mispredictions -> "@ + (if win {
            "WIN"@
        } else if level_up {
            "level_up"@
        } else {
            "ok"@
        })
    } else {
        "halted after "@ + decimal(executed) + "/"@ + decimal(committed) + " actions: "@ + detail
            + "; "@ + decimal(discarded) + " queued action(s) discarded"@
    }
}

impl ExecutionReport {
    pub fn halted(&self) -> (r: bool)
        ensures
            r == (self.mispredictions > 0),
    {
        self.mispredictions > 0
    }

    pub fn summary(&self) -> (s: String)
        ensures
            s@ == execution_summary_text(
                self.executed@.len(),
                self.committed@.len(),
                self.mispredictions > 0,
                self.win,
                self.level_up,
                self.counterexample_detail@,
                self.discarded@.len(),
            ),
    {
        let n = self.executed.len();
        let mut s = String::new();
        if !self.halted() {
            push_decimal(&mut s, n);
            push_str(&mut s, "/");
            push_decimal(&mut s, self.committed.len());
            push_str(&mut s, " executed with 0 mispredictions -> ");
            if self.win {
                push_str(&mut s, "WIN");
            } else if self.level_up {
                push_str(&mut s, "level_up");
            } else {
                push_str(&mut s, "ok");
            }
        } else {
            push_str(&mut s, "halted after ");
            push_decimal(&mut s, n);
            push_str(&mut s, "/");
            push_decimal(&mut s, self.committed.len());
            push_str(&mut s, " actions: ");
            push_str(&mut s, self.counterexample_detail.as_str());
            push_str(&mut s, "; ");
            push_decimal(&mut s, self.discarded.len());
            push_str(&mut s, " queued action(s) discarded");
        }
        s
    }
}

proof fn lemma_texts_push(s: Seq<String>, x: String)
    ensures
        texts(s.push(x)) == texts(s).push(x@),
{
    assert(texts(s.push(x)) =~= texts(s).push(x@));
}

proof fn lemma_chained_push(recs: Seq<Record>, r: Record, base: int, cur0: Seq<Seq<u8>>, plan: Seq<Seq<char>>)
    requires
        chained(recs, base, cur0, plan),
        recs.len() < plan.len(),
        r.index == base + recs.len(),
        r.action == plan[recs.len() as int],
        r.before == (if recs.len() == 0 { cur0 } else { recs.last().after }),
    ensures
        chained(recs.push(r), base, cur0, plan),
{
    let s = recs.push(r);
    assert forall|k: int| 0 <= k < s.len() implies (#[trigger] s[k]).index == base + k && s[k].action == plan[k] by {
        if k < recs.len() {
            assert(s[k] == recs[k]);
        }
    }
    assert forall|k: int| 0 <= k < s.len() implies (#[trigger] s[k]).before == (if k == 0 {
        cur0
    } else {
        s[k - 1].after
    }) by {
        if k < recs.len() {
            assert(s[k] == recs[k]);
            if k > 0 {
                assert(s[k - 1] == recs[k - 1]);
            }
        }
    }
}

proof fn lemma_appended(tl0: Seq<Record>, recs: Seq<Record>)
    ensures
        appended_records(tl0, tl0 + recs) == recs,
        (tl0 + recs).take(tl0.len() as int) == tl0,
{
    assert(appended_records(tl0, tl0 + recs) =~= recs);
    assert((tl0 + recs).take(tl0.len() as int) =~= tl0);
}

proof fn lemma_stop_commit(
    r: ExecutionReport,
    recs: Seq<Record>,
    outs: Seq<Outcome>,
    cur0: Seq<Seq<u8>>,
    plan_t: Seq<Seq<char>>,
    ok: bool,
    flags_ok: bool,
)
    requires
        recs.len() > 0,
        recs.len() <= plan_t.len(),
        outs.len() == recs.len(),
        forall|k: int| 0 <= k < recs.len() - 1 ==> consistent(#[trigger] outs[k], recs[k]) && !recs[k].terminal(),
        ok == consistent(outs.last(), recs.last()),
        flags_ok == flags_agree(outs.last(), recs.last()),
        ok ==> recs.last().terminal(),
        texts(r.committed@) == plan_t,
        texts(r.executed@) == plan_t.take(recs.len() as int),
        texts(r.discarded@) == plan_t.skip(recs.len() as int),
        r.mispredictions == (if ok { 0usize } else { 1usize }),
        !ok ==> (r.counterexample matches Some(t) && t@ == recs.last() && r.counterexample_detail@
            == misprediction_text(flags_ok, (recs.len() - 1) as nat)),
        ok ==> r.counterexample is None && r.counterexample_detail@ == Seq::<char>::empty(),
        board(&r.final_state) == recs.last().after,
        r.win == recs.last().win,
        r.level_up == recs.last().level_up,
        r.dead == recs.last().dead,
    ensures
        reports_commit(r, recs, outs, cur0, plan_t),
{
    reveal(reports_commit);
}

proof fn lemma_complete_commit(
    r: ExecutionReport,
    recs: Seq<Record>,
    outs: Seq<Outcome>,
    cur0: Seq<Seq<u8>>,
    plan_t: Seq<Seq<char>>,
)
    requires
        recs.len() == plan_t.len(),
        outs.len() == recs.len(),
        forall|k: int| 0 <= k < recs.len() ==> consistent(#[trigger] outs[k], recs[k]) && !recs[k].terminal(),
        texts(r.committed@) == plan_t,
        texts(r.executed@) == plan_t.take(recs.len() as int),
        texts(r.discarded@) == plan_t.skip(recs.len() as int),
        r.mispredictions == 0,
        r.counterexample is None,
        r.counterexample_detail@ == Seq::<char>::empty(),
        board(&r.final_state) == (if recs.len() == 0 { cur0 } else { recs.last().after }),
        !r.win && !r.level_up && !r.dead,
    ensures
        reports_commit(r, recs, outs, cur0, plan_t),
{
    reveal(reports_commit);
    if recs.len() > 0 {
        assert(consistent(outs[recs.len() - 1], recs[recs.len() - 1]));
    }
}

/// One gated interaction: predict, act, record. Returns the recorded
/// transition, the prediction fixed before the action, and the observation.
fn interact<E: Environment>(
    env: &mut E,
    model: &WorldModel,
    timeline: &mut Timeline,
    cur: &Grid,
    action: &str,
) -> (r: (Transition, crate::model::Prediction, Observation))
    requires
        old(env).spec_actions_taken() < usize::MAX,
        old(timeline)@.len() < usize::MAX,
    ensures
        final(env).spec_actions_taken() == old(env).spec_actions_taken() + 1,
        final(env).spec_trace() == old(env).spec_trace().push(EnvEvent::Step(action@, r.2@)),
        final(timeline)@ == old(timeline)@.push(r.0@),
        r.0@ == appended(
            old(timeline)@.len() as int,
            board(cur),
            action@,
            r.2@.grid,
            r.2@.level_up,
            r.2@.dead,
            r.2@.win,
        ),
        model.step_rule.known() ==> r.1@ == model.outcome(board(cur), action@),
{
    let pred = model.step(cur, action);
    let obs = env.step(action);
    let t = timeline.append(
        copy_grid(cur),
        action,
        copy_grid(&obs.grid),
        obs.level_up,
        obs.dead,
        obs.win,
    ).copied();
    (t, pred, obs)
}

/// The report of a commit that stops at step `i` (0-based): a misprediction
/// when `!ok`, otherwise a terminal step.
fn stop_report(
    plan: &[String],
    executed: Vec<String>,
    i: usize,
    ok: bool,
    flags_ok: bool,
    t: Transition,
    cur: Grid,
    obs_win: bool,
    obs_level_up: bool,
    obs_dead: bool,
) -> (r: ExecutionReport)
    requires
        i < plan@.len(),
        texts(executed@) == texts(plan@).take(i + 1),
    ensures
        texts(r.committed@) == texts(plan@),
        r.executed == executed,
        texts(r.discarded@) == texts(plan@).skip(i + 1),
        r.mispredictions == (if ok { 0usize } else { 1usize }),
        !ok ==> r.counterexample == Some(t) && r.counterexample_detail@ == misprediction_text(
            flags_ok,
            i as nat,
        ),
        ok ==> r.counterexample is None && r.counterexample_detail@ == Seq::<char>::empty(),
        r.final_state == cur,
        r.win == obs_win,
        r.level_up == obs_level_up,
        r.dead == obs_dead,
{
    let mispredictions: usize = if ok { 0 } else { 1 };
    let mut detail = String::new();
    if !ok {
        if flags_ok {
            push_str(&mut detail, "grid misprediction");
        } else {
            push_str(&mut detail, "flag misprediction");
        }
        push_str(&mut detail, " at committed step ");
        push_decimal(&mut detail, i);
    }
    let counterexample = if ok { None } else { Some(t) };
    let committed = copy_texts(plan, 0, plan.len());
    let discarded = copy_texts(plan, i + 1, plan.len());
    proof {
        assert(texts(plan@).subrange(0, plan@.len() as int) =~= texts(plan@));
        assert(texts(plan@).subrange(i + 1, plan@.len() as int) =~= texts(plan@).skip(i + 1));
        assert(ok ==> detail@ =~= Seq::<char>::empty());
    }
    ExecutionReport {
        committed,
        executed,
        discarded,
        mispredictions,
        counterexample,
        counterexample_detail: detail,
        final_state: cur,
        win: obs_win,
        level_up: obs_level_up,
        dead: obs_dead,
    }
}

/// Executes `plan` with per-step gating. The prediction precedes each
/// action; the transition is recorded before any halt decision; the first
/// mismatch halts, discards the remainder, and surfaces the counterexample.
#[verifier::spinoff_prover]
#[verifier::rlimit(30)]
pub fn commit_actions<E: Environment>(
    env: &mut E,
    model: &WorldModel,
    timeline: &mut Timeline,
    current: &Grid,
    plan: &[String],
) -> (r: ExecutionReport)
    requires
        old(env).spec_actions_taken() + plan@.len() <= usize::MAX,
        old(timeline)@.len() + plan@.len() < usize::MAX,
    ensures
        final(timeline)@.len() >= old(timeline)@.len(),
        final(timeline)@.take(old(timeline)@.len() as int) == old(timeline)@,
        chained(
            appended_records(old(timeline)@, final(timeline)@),
            old(timeline)@.len() as int,
            board(current),
            texts(plan@),
        ),
        final(env).spec_actions_taken() == old(env).spec_actions_taken() + appended_records(
            old(timeline)@,
            final(timeline)@,
        ).len(),
        final(env).spec_trace() == old(env).spec_trace() + steps_of(
            appended_records(old(timeline)@, final(timeline)@),
        ),
        exists|outs: Seq<Outcome>|
            reports_commit(
                r,
                appended_records(old(timeline)@, final(timeline)@),
                outs,
                board(current),
                texts(plan@),
            ) && (model.step_rule.known() ==> outs == predictions(
                *model,
                appended_records(old(timeline)@, final(timeline)@),
            )),
{
    let ghost tl0 = timeline@;
    let ghost taken0 = env.spec_actions_taken();
    let ghost trace0 = env.spec_trace();
    let ghost plan_t = texts(plan@);
    let ghost cur0 = board(current);
    let mut cur = copy_grid(current);
    let mut executed: Vec<String> = Vec::new();
    let ghost mut outs: Seq<Outcome> = Seq::empty();
    let ghost mut recs: Seq<Record> = Seq::empty();
    let mut i: usize = 0;
    proof {
        assert(tl0 + recs =~= tl0);
        assert(texts(executed@) =~= plan_t.take(0));
    }
    while i < plan.len()
        invariant
            tl0 == old(timeline)@,
            taken0 == old(env).spec_actions_taken(),
            plan_t == texts(plan@),
            plan_t.len() == plan@.len(),
            cur0 == board(current),
            taken0 + plan@.len() <= usize::MAX,
            tl0.len() + plan@.len() < usize::MAX,
            i <= plan.len(),
            recs.len() == i,
            outs.len() == i,
            timeline@ == tl0 + recs,
            chained(recs, tl0.len() as int, cur0, plan_t),
            env.spec_actions_taken() == taken0 + i,
            trace0 == old(env).spec_trace(),
            env.spec_trace() == trace0 + steps_of(recs),
            forall|k: int| 0 <= k < i ==> consistent(#[trigger] outs[k], recs[k]) && !recs[k].terminal(),
            model.step_rule.known() ==> outs == predictions(*model, recs),
            board(&cur) == (if i == 0 { cur0 } else { recs[i - 1].after }),
            texts(executed@) == plan_t.take(i as int),
        decreases plan.len() - i,
    {
        let action = plan[i].as_str();
        let (t, pred, obs) = interact(env, model, timeline, &cur, action);
        let ghost recs0 = recs;
        let ghost outs0 = outs;
        proof {
            assert(timeline@ =~= tl0 + recs0.push(t@));
            lemma_chained_push(recs0, t@, tl0.len() as int, cur0, plan_t);
            recs = recs0.push(t@);
            outs = outs0.push(pred@);
            assert(recs.drop_last() =~= recs0);
            assert(step_of(t@) == EnvEvent::Step(action@, obs@));
            assert(env.spec_trace() =~= trace0 + steps_of(recs));
            if model.step_rule.known() {
                assert(outs =~= predictions(*model, recs));
            }
        }
        let ghost ex0 = executed@;
        executed.push(owned(action));
        proof {
            lemma_texts_push(ex0, executed@.last());
            assert(executed@ == ex0.push(executed@.last()));
            assert(plan_t.take(i + 1) =~= plan_t.take(i as int).push(plan_t[i as int]));
        }
        cur = obs.grid;
        let terminal = t.terminal();
        let flags_ok = pred.level_up == t.level_up && pred.dead == t.dead && pred.win == t.win;
        let ok = flags_ok && (terminal || grids_equal(&pred.grid, &cur));
        assert(ok == consistent(pred@, t@));
        if !ok || terminal {
            proof {
                lemma_appended(tl0, recs);
                assert(outs.last() == pred@);
                assert(recs.last() == t@);
                assert forall|k: int| 0 <= k < recs.len() - 1 implies consistent(
                    #[trigger] outs[k],
                    recs[k],
                ) && !recs[k].terminal() by {
                    assert(outs[k] == outs0[k]);
                    assert(recs[k] == recs0[k]);
                }
            }
            let r = stop_report(plan, executed, i, ok, flags_ok, t, cur, obs.win, obs.level_up, obs.dead);
            proof {
                lemma_stop_commit(r, recs, outs, cur0, plan_t, ok, flags_ok);
            }
            return r;
        }
        proof {
            assert(outs[i as int] == pred@);
            assert(recs[i as int] == t@);
            assert forall|k: int| 0 <= k < i + 1 implies consistent(#[trigger] outs[k], recs[k])
                && !recs[k].terminal() by {
                if k < i {
                    assert(outs[k] == outs0[k]);
                    assert(recs[k] == recs0[k]);
                }
            }
        }
        i = i + 1;
    }
    let committed = copy_texts(plan, 0, plan.len());
    let discarded: Vec<String> = Vec::new();
    proof {
        lemma_appended(tl0, recs);
        assert(plan_t.subrange(0, plan@.len() as int) =~= plan_t);
        assert(texts(discarded@) =~= plan_t.skip(i as int));
        assert(plan_t.take(i as int) =~= plan_t);
    }
    let r = ExecutionReport {
        committed,
        executed,
        discarded,
        mispredictions: 0,
        counterexample: None,
        counterexample_detail: String::new(),
        final_state: cur,
        win: false,
        level_up: false,
        dead: false,
    };
    proof {
        lemma_complete_commit(r, recs, outs, cur0, plan_t);
    }
    r
}

} // verus!
