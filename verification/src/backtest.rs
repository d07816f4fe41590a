//! run_backtest: exact retrodictive verification against the full Timeline.
//!
//! Flags are compared on every transition; the grid comparison is skipped
//! on terminal transitions, and skips are counted.

use vstd::prelude::*;

use crate::grid::{board, Grid};
use crate::model::{Outcome, WorldModel};
use crate::text::{bool_text, decimal, push_bool, push_decimal, push_str};
use crate::timeline::{Record, Timeline};

verus! {

broadcast use crate::grid::group_board;

#[derive(Debug, Clone, Copy, PartialEq, Eq, Structural)]
pub enum MismatchKind {
    Grid,
    Flags,
}

#[derive(Debug, Clone)]
pub struct Mismatch {
    pub index: usize,
    pub kind: MismatchKind,
    pub detail: String,
}

/// The mathematical value of a [`Mismatch`].
pub struct MismatchView {
    pub index: int,
    pub kind: MismatchKind,
    pub detail: Seq<char>,
}

impl View for Mismatch {
    type V = MismatchView;

    open spec fn view(&self) -> MismatchView {
        MismatchView { index: self.index as int, kind: self.kind, detail: self.detail@ }
    }
}

#[derive(Debug, Default)]
pub struct BacktestReport {
    pub total: usize,
    pub exact: usize,
    pub skipped: usize,
    pub mismatches: Vec<Mismatch>,
}

/// The mathematical value of a [`BacktestReport`].
pub struct ReportView {
    pub total: int,
    pub exact: int,
    pub skipped: int,
    pub mismatches: Seq<MismatchView>,
}

impl View for BacktestReport {
    type V = ReportView;

    open spec fn view(&self) -> ReportView {
        ReportView {
            total: self.total as int,
            exact: self.exact as int,
            skipped: self.skipped as int,
            mismatches: self.mismatches@.map_values(|m: Mismatch| m@),
        }
    }
}

/// The flags of a prediction agree with a recorded transition.
pub open spec fn flags_agree(o: Outcome, r: Record) -> bool {
    o.level_up == r.level_up && o.dead == r.dead && o.win == r.win
}

/// A prediction is consistent with a recorded transition: flags agree on
/// every step, the grid agrees on every non-terminal step.
pub open spec fn consistent(o: Outcome, r: Record) -> bool {
    flags_agree(o, r) && (r.terminal() || o.grid == r.after)
}

/// The text of a flag mismatch.
pub open spec fn flags_detail(o: Outcome, r: Record) -> Seq<char> {
    "predicted (level_up="@ + bool_text(o.level_up) + ", dead="@ + bool_text(o.dead) + ", win="@
        + bool_text(o.win) + ") but observed (level_up="@ + bool_text(r.level_up) + ", dead="@
        + bool_text(r.dead) + ", win="@ + bool_text(r.win) + ") at step "@ + decimal(
        r.index as nat,
    )
}

/// The text naming the first differing cell of two rows of equal width,
/// searching from column `x`.
pub open spec fn cell_diff_text(p: Seq<u8>, q: Seq<u8>, x: int, y: int) -> Seq<char>
    decreases p.len() - x,
{
    if x < 0 || x >= p.len() {
        "grids differ (no cell-level diff found)"@
    } else if p[x] != q[x] {
        "cell ("@ + decimal(x as nat) + ","@ + decimal(y as nat) + ") predicted "@ + decimal(
            p[x] as nat,
        ) + ", observed "@ + decimal(q[x] as nat)
    } else {
        cell_diff_text(p, q, x + 1, y)
    }
}

/// The text naming the first difference of two grids with equally many
/// rows, searching from row `y`.
pub open spec fn row_diff_text(p: Seq<Seq<u8>>, q: Seq<Seq<u8>>, y: int) -> Seq<char>
    decreases p.len() - y,
{
    if y < 0 || y >= p.len() {
        "grids differ (no cell-level diff found)"@
    } else if p[y].len() != q[y].len() {
        "row "@ + decimal(y as nat) + " width "@ + decimal(p[y].len()) + " != "@ + decimal(
            q[y].len(),
        )
    } else if p[y] != q[y] {
        cell_diff_text(p[y], q[y], 0, y)
    } else {
        row_diff_text(p, q, y + 1)
    }
}

/// The text naming the first difference between a predicted and an
/// observed grid.
pub open spec fn first_diff_text(p: Seq<Seq<u8>>, q: Seq<Seq<u8>>) -> Seq<char> {
    if p.len() != q.len() {
        "row count "@ + decimal(p.len()) + " != "@ + decimal(q.len())
    } else {
        row_diff_text(p, q, 0)
    }
}

/// The text of a grid mismatch.
pub open spec fn grid_detail(o: Outcome, r: Record) -> Seq<char> {
    "grid mismatch at step "@ + decimal(r.index as nat) + ": "@ + first_diff_text(o.grid, r.after)
}

/// The report after checking the first `outs.len()` records of `tl`
/// against the predictions `outs`.
pub open spec fn report_of(tl: Seq<Record>, outs: Seq<Outcome>) -> ReportView
    decreases outs.len(),
{
    if outs.len() == 0 {
        ReportView { total: tl.len() as int, exact: 0, skipped: 0, mismatches: Seq::empty() }
    } else {
        let prev = report_of(tl, outs.drop_last());
        let i = outs.len() - 1;
        let o = outs.last();
        let r = tl[i];
        if !flags_agree(o, r) {
            ReportView {
                mismatches: prev.mismatches.push(
                    MismatchView { index: r.index, kind: MismatchKind::Flags, detail: flags_detail(o, r) },
                ),
                ..prev
            }
        } else if r.terminal() {
            ReportView { skipped: prev.skipped + 1, ..prev }
        } else if o.grid != r.after {
            ReportView {
                mismatches: prev.mismatches.push(
                    MismatchView { index: r.index, kind: MismatchKind::Grid, detail: grid_detail(o, r) },
                ),
                ..prev
            }
        } else {
            ReportView { exact: prev.exact + 1, ..prev }
        }
    }
}

/// What a known model predicts for each recorded transition.
pub open spec fn model_outcomes(model: WorldModel, tl: Seq<Record>) -> Seq<Outcome> {
    Seq::new(tl.len(), |i: int| model.outcome(tl[i].before, tl[i].action))
}

/// The report of a model that is certified: nothing mismatched and
/// something was checked.
pub open spec fn green_spec(r: ReportView) -> bool {
    r.mismatches.len() == 0 && r.total > 0
}

/// The one-line summary of a report.
pub open spec fn summary_text(r: ReportView) -> Seq<char> {
    decimal(r.exact as nat) + " / "@ + decimal((r.total - r.skipped) as nat) + " exact after "@
        + decimal(r.total as nat) + " steps; "@ + decimal(r.mismatches.len()) + " mismatch(es), "@
        + decimal(r.skipped as nat) + " skipped"@
}

/// Counting: every checked record is exact, skipped, or a mismatch, and the
/// mismatches name distinct, increasing records.
pub proof fn lemma_report_counts(tl: Seq<Record>, outs: Seq<Outcome>)
    requires
        outs.len() <= tl.len(),
        crate::timeline::indexed(tl),
    ensures
        report_of(tl, outs).total == tl.len(),
        report_of(tl, outs).exact + report_of(tl, outs).skipped + report_of(tl, outs).mismatches.len()
            == outs.len(),
        report_of(tl, outs).exact >= 0,
        report_of(tl, outs).skipped >= 0,
        forall|k: int|
            0 <= k < report_of(tl, outs).mismatches.len() ==> 0 <= #[trigger] report_of(
                tl,
                outs,
            ).mismatches[k].index < outs.len(),
    decreases outs.len(),
{
    if outs.len() > 0 {
        lemma_report_counts(tl, outs.drop_last());
    }
}

/// Certification is exact replay of the full history: a report has no
/// mismatch exactly when every prediction is consistent with its recorded
/// transition (flags on every step, grid on every non-terminal step).
pub proof fn lemma_no_mismatch_iff_consistent(tl: Seq<Record>, outs: Seq<Outcome>)
    requires
        outs.len() <= tl.len(),
    ensures
        report_of(tl, outs).mismatches.len() == 0 <==> forall|i: int|
            0 <= i < outs.len() ==> consistent(#[trigger] outs[i], tl[i]),
    decreases outs.len(),
{
    if outs.len() > 0 {
        let prev = outs.drop_last();
        lemma_no_mismatch_iff_consistent(tl, prev);
        let n = outs.len() - 1;
        assert forall|i: int| 0 <= i < n implies outs[i] == prev[i] by {}
        if report_of(tl, outs).mismatches.len() == 0 {
            assert(report_of(tl, prev).mismatches.len() == 0);
        }
        if forall|i: int| 0 <= i < outs.len() ==> consistent(#[trigger] outs[i], tl[i]) {
            assert(consistent(outs[n], tl[n]));
            assert forall|i: int| 0 <= i < prev.len() implies consistent(#[trigger] prev[i], tl[i]) by {
                assert(consistent(outs[i], tl[i]));
            }
        }
    }
}

/// Certification against the full history: a report is green exactly when
/// the history is non-empty and every prediction is consistent with it.
pub proof fn lemma_green_iff_certified(tl: Seq<Record>, outs: Seq<Outcome>)
    requires
        outs.len() == tl.len(),
        crate::timeline::indexed(tl),
    ensures
        green_spec(report_of(tl, outs)) <==> (tl.len() > 0 && forall|i: int|
            0 <= i < tl.len() ==> consistent(#[trigger] outs[i], tl[i])),
{
    lemma_report_counts(tl, outs);
    lemma_no_mismatch_iff_consistent(tl, outs);
}

impl BacktestReport {
    pub fn green(&self) -> (r: bool)
        ensures
            r == green_spec(self@),
    {
        self.mismatches.len() == 0 && self.total > 0
    }

    pub fn first_mismatch(&self) -> (r: Option<&Mismatch>)
        ensures
            match r {
                Some(m) => self@.mismatches.len() > 0 && m@ == self@.mismatches[0],
                None => self@.mismatches.len() == 0,
            },
    {
        if self.mismatches.len() == 0 {
            None
        } else {
            Some(&self.mismatches[0])
        }
    }

    /// The summary line: "E / N exact after T steps; M mismatch(es), S skipped".
    pub fn summary(&self) -> (s: String)
        requires
            self.skipped <= self.total,
        ensures
            s@ == summary_text(self@),
    {
        let mut s = String::new();
        push_decimal(&mut s, self.exact);
        push_str(&mut s, " / ");
        push_decimal(&mut s, self.total - self.skipped);
        push_str(&mut s, " exact after ");
        push_decimal(&mut s, self.total);
        push_str(&mut s, " steps; ");
        push_decimal(&mut s, self.mismatches.len());
        push_str(&mut s, " mismatch(es), ");
        push_decimal(&mut s, self.skipped);
        push_str(&mut s, " skipped");
        s
    }
}

fn push_cell_diff(s: &mut String, p: &Vec<u8>, q: &Vec<u8>, y: usize)
    requires
        p@.len() == q@.len(),
    ensures
        final(s)@ == old(s)@ + cell_diff_text(p@, q@, 0, y as int),
{
    let mut x: usize = 0;
    while x < p.len()
        invariant
            p@.len() == q@.len(),
            x <= p.len(),
            s@ == old(s)@,
            cell_diff_text(p@, q@, 0, y as int) == cell_diff_text(p@, q@, x as int, y as int),
        decreases p.len() - x,
    {
        if p[x] != q[x] {
            push_str(s, "cell (");
            push_decimal(s, x);
            push_str(s, ",");
            push_decimal(s, y);
            push_str(s, ") predicted ");
            push_decimal(s, p[x] as usize);
            push_str(s, ", observed ");
            push_decimal(s, q[x] as usize);
            return;
        }
        x = x + 1;
    }
    push_str(s, "grids differ (no cell-level diff found)");
}

/// Appends the text naming the first difference of two grids.
fn push_first_cell_diff(s: &mut String, pred: &Grid, observed: &Grid)
    ensures
        final(s)@ == old(s)@ + first_diff_text(board(pred), board(observed)),
{
    if pred.len() != observed.len() {
        push_str(s, "row count ");
        push_decimal(s, pred.len());
        push_str(s, " != ");
        push_decimal(s, observed.len());
        return;
    }
    let ghost p = board(pred);
    let ghost q = board(observed);
    let mut y: usize = 0;
    while y < pred.len()
        invariant
            p == board(pred),
            q == board(observed),
            pred.len() == observed.len(),
            y <= pred.len(),
            s@ == old(s)@,
            row_diff_text(p, q, 0) == row_diff_text(p, q, y as int),
        decreases pred.len() - y,
    {
        let pr = &pred[y];
        let rr = &observed[y];
        if pr.len() != rr.len() {
            push_str(s, "row ");
            push_decimal(s, y);
            push_str(s, " width ");
            push_decimal(s, pr.len());
            push_str(s, " != ");
            push_decimal(s, rr.len());
            return;
        }
        if !crate::grid::rows_equal(pr, rr) {
            push_cell_diff(s, pr, rr, y);
            return;
        }
        y = y + 1;
    }
    push_str(s, "grids differ (no cell-level diff found)");
}

/// Replays every recorded transition through the model and compares.
pub fn run_backtest(model: &WorldModel, timeline: &Timeline) -> (r: BacktestReport)
    ensures
        model.step_rule.known() ==> r@ == report_of(timeline@, model_outcomes(*model, timeline@)),
        exists|outs: Seq<Outcome>| outs.len() == timeline@.len() && r@ == report_of(timeline@, outs),
        r.total == timeline@.len(),
        r.exact + r.skipped + r.mismatches.len() == r.total,
{
    let n = timeline.len();
    let ghost tl = timeline@;
    let mut report = BacktestReport { total: n, exact: 0, skipped: 0, mismatches: Vec::new() };
    let ghost mut outs: Seq<Outcome> = Seq::empty();
    assert(report@.mismatches =~= Seq::<MismatchView>::empty());
    let mut i: usize = 0;
    while i < n
        invariant
            tl == timeline@,
            n == tl.len(),
            crate::timeline::indexed(tl),
            i <= n,
            outs.len() == i,
            report@ == report_of(tl, outs),
            model.step_rule.known() ==> outs =~= model_outcomes(*model, tl).take(i as int),
        decreases n - i,
    {
        proof {
            lemma_report_counts(tl, outs);
        }
        let t = match timeline.get(i) {
            Some(t) => t,
            None => {
               
                return report;
            },
        };
        let pred = model.step(&t.state_before, t.action.as_str());
        let ghost prev = outs;
        proof {
            outs = outs.push(pred@);
            assert(outs.drop_last() =~= prev);
        }
        let flags_ok = pred.level_up == t.level_up && pred.dead == t.dead && pred.win == t.win;
        if !flags_ok {
            let mut detail = String::new();
            push_str(&mut detail, "predicted (level_up=");
            push_bool(&mut detail, pred.level_up);
            push_str(&mut detail, ", dead=");
            push_bool(&mut detail, pred.dead);
            push_str(&mut detail, ", win=");
            push_bool(&mut detail, pred.win);
            push_str(&mut detail, ") but observed (level_up=");
            push_bool(&mut detail, t.level_up);
            push_str(&mut detail, ", dead=");
            push_bool(&mut detail, t.dead);
            push_str(&mut detail, ", win=");
            push_bool(&mut detail, t.win);
            push_str(&mut detail, ") at step ");
            push_decimal(&mut detail, t.index);
            report.mismatches.push(Mismatch { index: t.index, kind: MismatchKind::Flags, detail });
        } else if t.terminal() {
            report.skipped = report.skipped + 1;
        } else if !crate::grid::grids_equal(&pred.grid, &t.state_after) {
            let mut detail = String::new();
            push_str(&mut detail, "grid mismatch at step ");
            push_decimal(&mut detail, t.index);
            push_str(&mut detail, ": ");
            push_first_cell_diff(&mut detail, &pred.grid, &t.state_after);
            report.mismatches.push(Mismatch { index: t.index, kind: MismatchKind::Grid, detail });
        } else {
            report.exact = report.exact + 1;
        }
        assert(report@.mismatches =~= report_of(tl, outs).mismatches);
        i = i + 1;
    }
    proof {
        lemma_report_counts(tl, outs);
        if model.step_rule.known() {
            assert(outs =~= model_outcomes(*model, tl));
        }
    }
    report
}


/// A report checks only the first `outs.len()` records of its history:
/// whatever follows them does not change what it found.
proof fn lemma_report_prefix(tl0: Seq<Record>, tl1: Seq<Record>, outs: Seq<Outcome>)
    requires
        outs.len() <= tl0.len(),
        tl1.len() >= tl0.len(),
        tl1.take(tl0.len() as int) == tl0,
    ensures
        report_of(tl1, outs).mismatches == report_of(tl0, outs).mismatches,
        report_of(tl1, outs).exact == report_of(tl0, outs).exact,
        report_of(tl1, outs).skipped == report_of(tl0, outs).skipped,
    decreases outs.len(),
{
    if outs.len() > 0 {
        lemma_report_prefix(tl0, tl1, outs.drop_last());
        assert(tl1[outs.len() - 1] == tl1.take(tl0.len() as int)[outs.len() - 1]);
    }
}

proof fn lemma_mismatches_extend(tl0: Seq<Record>, outs0: Seq<Outcome>, tl1: Seq<Record>, outs1: Seq<Outcome>)
    requires
        outs0.len() <= tl0.len(),
        tl1.len() >= tl0.len(),
        tl1.take(tl0.len() as int) == tl0,
        outs1.len() >= outs0.len(),
        outs1.take(outs0.len() as int) == outs0,
    ensures
        report_of(tl1, outs1).mismatches.len() >= report_of(tl0, outs0).mismatches.len(),
        report_of(tl1, outs1).mismatches.take(report_of(tl0, outs0).mismatches.len() as int)
            == report_of(tl0, outs0).mismatches,
        report_of(tl1, outs1).exact >= report_of(tl0, outs0).exact,
        report_of(tl1, outs1).skipped >= report_of(tl0, outs0).skipped,
    decreases outs1.len(),
{
    let m0 = report_of(tl0, outs0).mismatches;
    if outs1.len() == outs0.len() {
        assert(outs1 =~= outs0);
        lemma_report_prefix(tl0, tl1, outs0);
        assert(m0.take(m0.len() as int) =~= m0);
    } else {
        let q = outs1.drop_last();
        assert(q.take(outs0.len() as int) =~= outs0);
        lemma_mismatches_extend(tl0, outs0, tl1, q);
        let mq = report_of(tl1, q).mismatches;
        let m1 = report_of(tl1, outs1).mismatches;
        assert(m1 == mq || m1 == mq.push(m1.last()));
        assert(m1.take(m0.len() as int) =~= m0) by {
            assert forall|i: int| 0 <= i < m0.len() implies m1[i] == m0[i] by {
                assert(mq.take(m0.len() as int)[i] == m0[i]);
            }
        }
    }
}

/// A backtest of a model over a longer history keeps every mismatch it
/// found over an earlier part of that history, in the same order, counts at
/// least as many exact and skipped records, and so a model that is not green
/// over a nonempty history is green over no longer one.
pub proof fn lemma_backtest_keeps_mismatches(model: WorldModel, tl0: Seq<Record>, tl1: Seq<Record>)
    requires
        tl1.len() >= tl0.len(),
        tl1.take(tl0.len() as int) == tl0,
    ensures
        ({
            let r0 = report_of(tl0, model_outcomes(model, tl0));
            let r1 = report_of(tl1, model_outcomes(model, tl1));
            &&& r1.mismatches.len() >= r0.mismatches.len()
            &&& r1.mismatches.take(r0.mismatches.len() as int) == r0.mismatches
            &&& r1.exact >= r0.exact
            &&& r1.skipped >= r0.skipped
            &&& tl0.len() > 0 && !green_spec(r0) ==> !green_spec(r1)
        }),
{
    let o0 = model_outcomes(model, tl0);
    let o1 = model_outcomes(model, tl1);
    assert(o1.take(o0.len() as int) =~= o0) by {
        assert forall|i: int| 0 <= i < o0.len() implies o1[i] == o0[i] by {
            assert(tl1[i] == tl1.take(tl0.len() as int)[i]);
        }
    }
    lemma_mismatches_extend(tl0, o0, tl1, o1);
    lemma_report_total(tl0, o0);
    lemma_report_total(tl1, o1);
}

proof fn lemma_report_total(tl: Seq<Record>, outs: Seq<Outcome>)
    ensures
        report_of(tl, outs).total == tl.len(),
    decreases outs.len(),
{
    if outs.len() > 0 {
        lemma_report_total(tl, outs.drop_last());
    }
}

} // verus!
