//! Session persistence: a snapshot of a running harness session (the
//! append-only Timeline and the current world program) from which the
//! session resumes exactly.

use vstd::prelude::*;

use crate::grid::copy_grid;
use crate::model::{GoalRule, StepRule, WorldModel};
use crate::program::RuleProgram;
use crate::protocol::{believed_program, current_program, digest_records, digest_timeline, TransitionDigest};
use crate::text::owned;
use crate::timeline::{indexed, Record, Timeline};

verus! {

broadcast use crate::grid::group_board;

/// A snapshot of a harness session.
#[derive(Debug, Clone)]
pub struct Session {
    pub task: String,
    pub program: RuleProgram,
    pub revision: u32,
    pub history: Vec<String>,
    pub timeline: Vec<TransitionDigest>,
}

/// The records a timeline rebuilt from `rs` holds: the same transitions,
/// each carrying its own position as index.
pub open spec fn reindexed(rs: Seq<Record>) -> Seq<Record> {
    Seq::new(rs.len(), |i: int| Record { index: i, ..rs[i] })
}

fn copy_texts_all(items: &Vec<String>) -> (r: Vec<String>)
    ensures
        r.deep_view() == items.deep_view(),
{
    let mut r: Vec<String> = Vec::new();
    let mut i: usize = 0;
    while i < items.len()
        invariant
            i <= items.len(),
            r.deep_view() == items.deep_view().take(i as int),
        decreases items.len() - i,
    {
        let ghost before = r.deep_view();
        let t = owned(items[i].as_str());
        r.push(t);
        assert(r.deep_view() =~= before.push(t@));
        assert(items.deep_view()[i as int] == items@[i as int]@);
        i = i + 1;
        assert(r.deep_view() =~= items.deep_view().take(i as int));
    }
    assert(items.deep_view().take(items.len() as int) =~= items.deep_view());
    r
}

impl Session {
    /// Captures the model's program (the empty program when the model is not
    /// program-backed), its revision counter and history, and the timeline.
    pub fn capture(task: &str, model: &WorldModel, timeline: &Timeline) -> (s: Session)
        ensures
            s.task@ == task@,
            s.program@ == believed_program(*model),
            s.revision == model.revision,
            s.history.deep_view() == model.history.deep_view(),
            digest_records(s.timeline@) == timeline@,
    {
        Session {
            task: owned(task),
            program: current_program(model),
            revision: model.revision,
            history: copy_texts_all(&model.history),
            timeline: digest_timeline(timeline),
        }
    }

    /// Rebuilds a program-backed model from the snapshot, with the revision
    /// counter and history restored.
    pub fn restore_model(&self) -> (m: WorldModel)
        ensures
            m.step_rule matches StepRule::Program(p) && p@ == self.program@,
            m.goal_rule matches GoalRule::AbsentColors(c) && c@ == self.program@.goal_absent_colors,
            m.revision == self.revision,
            m.history.deep_view() == self.history.deep_view(),
    {
        let mut m = WorldModel::from_program(self.program.copied(), "restored from session");
        m.revision = self.revision;
        m.history = copy_texts_all(&self.history);
        m
    }

    /// Rebuilds the append-only timeline from the snapshot: the recorded
    /// transitions in order, each indexed by its position.
    pub fn restore_timeline(&self) -> (t: Timeline)
        ensures
            t@ == reindexed(digest_records(self.timeline@)),
    {
        let ghost rs = digest_records(self.timeline@);
        let mut tl = Timeline::new();
        let mut i: usize = 0;
        while i < self.timeline.len()
            invariant
                rs == digest_records(self.timeline@),
                i <= self.timeline.len(),
                tl@ == reindexed(rs.take(i as int)),
            decreases self.timeline.len() - i,
        {
            let d = &self.timeline[i];
            tl.append(
                copy_grid(&d.state_before),
                d.action.as_str(),
                copy_grid(&d.state_after),
                d.level_up,
                d.dead,
                d.win,
            );
            i = i + 1;
            assert(tl@ =~= reindexed(rs.take(i as int)));
        }
        assert(rs.take(self.timeline.len() as int) =~= rs);
        tl
    }
}

/// Restoring the timeline of a snapshot gives back the captured timeline:
/// a timeline's records carry their positions as indices, so reindexing
/// them changes nothing.
pub proof fn lemma_timeline_roundtrip(captured: Seq<Record>)
    requires
        indexed(captured),
    ensures
        reindexed(captured) == captured,
{
    assert forall|i: int| 0 <= i < captured.len() implies #[trigger] reindexed(captured)[i]
        == captured[i] by {
        assert(captured[i].index == i);
    }
    assert(reindexed(captured) =~= captured);
}

/// A model restored from a snapshot of a program-backed model predicts every
/// step and answers every goal query exactly as the captured model did.
pub proof fn lemma_model_roundtrip(captured: WorldModel, restored: WorldModel)
    requires
        captured.step_rule is Program,
        captured.goal_rule matches GoalRule::AbsentColors(c) && c@
            == believed_program(captured).goal_absent_colors,
        restored.step_rule matches StepRule::Program(p) && p@ == believed_program(captured),
        restored.goal_rule matches GoalRule::AbsentColors(c) && c@
            == believed_program(captured).goal_absent_colors,
    ensures
        forall|b: Seq<Seq<u8>>, a: Seq<char>| #[trigger]
            restored.outcome(b, a) == captured.outcome(b, a),
        forall|b: Seq<Seq<u8>>| #[trigger] restored.goal(b) == captured.goal(b),
{
}

} // verus!
