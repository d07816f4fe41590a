//! A scripted, provider-shaped responder: given a deliberation request it
//! returns a deliberation response, the same contract a provider turn
//! satisfies. It sees only the observation and the recorded timeline, never
//! an environment's hidden rules.
//!
//! It classifies each colour's semantics from the recorded transitions,
//! authors the world program accordingly, and probes the nearest colour
//! whose semantics is still unobserved.

use std::collections::BTreeMap;

use vstd::prelude::*;

use crate::deliberators::{grid_has_color, mystery_color, probe_path, valid_probe};
use crate::grid::{action_delta, board, locate, player_of, Grid};
use crate::program::{CellWrite, Effect, EffectView, Rule, RuleProgram, RuleView, ProgramView};
use crate::protocol::{digest_records, DeliberationRequest, DeliberationResponse, TransitionDigest};
use crate::text::{list_text, owned, push_color_list, push_quoted_list, push_str, quoted_list, texts};
use crate::timeline::Record;

verus! {

broadcast use crate::grid::group_board, vstd::std_specs::btree::group_btree_axioms,
    vstd::laws_cmp::group_laws_cmp;

/// What stepping toward a colour was seen to do.
#[derive(Debug, Clone, Copy, PartialEq, Eq, Structural)]
pub enum Sem {
    Passable,
    Winning,
    Lethal,
    Blocking,
}

/// What a recorded transition teaches: the colour the player stepped toward
/// and what happened, or nothing (no player, the step left the board, or
/// the cell was floor or the player itself).
pub open spec fn observed(t: Record) -> Option<(u8, Sem)> {
    match player_of(t.before) {
        None => None,
        Some(p) => {
            let (dx, dy) = action_delta(t.action);
            let tx = p.0 + dx;
            let ty = p.1 + dy;
            if !crate::grid::in_bounds(t.before, tx, ty) {
                None
            } else {
                let target = t.before[ty][tx];
                if target == 0 || target == 1 {
                    None
                } else {
                    let moved = player_of(t.after) == Some((tx, ty));
                    let sem = if t.win {
                        Sem::Winning
                    } else if t.dead {
                        Sem::Lethal
                    } else if moved {
                        Sem::Passable
                    } else {
                        Sem::Blocking
                    };
                    Some((target, sem))
                }
            }
        },
    }
}

/// The semantics learned from a history; a later observation of a colour
/// replaces an earlier one.
pub open spec fn classified(ts: Seq<Record>) -> Map<u8, Sem>
    decreases ts.len(),
{
    if ts.len() == 0 {
        Map::empty()
    } else {
        let m = classified(ts.drop_last());
        match observed(ts.last()) {
            Some(o) => m.insert(o.0, o.1),
            None => m,
        }
    }
}

/// The effect with only the given flags set.
pub open spec fn flags_effect(advances: bool, win: bool, dead: bool) -> EffectView {
    EffectView {
        player_advances: advances,
        push: false,
        win,
        dead,
        writes: Seq::empty(),
        writes_when_beyond: None,
    }
}

/// The rule authored for a colour with learned semantics `s` (none for a
/// blocking colour: no rule means blocked).
pub open spec fn learned_rule(c: u8, s: Sem) -> Option<RuleView> {
    match s {
        Sem::Passable => Some(
            RuleView {
                on_target: c,
                beyond_any_of: None,
                note: "learned passable"@,
                effect: flags_effect(true, false, false),
            },
        ),
        Sem::Winning => Some(
            RuleView {
                on_target: c,
                beyond_any_of: None,
                note: "learned winning"@,
                effect: flags_effect(true, true, false),
            },
        ),
        Sem::Lethal => Some(
            RuleView {
                on_target: c,
                beyond_any_of: None,
                note: "learned lethal"@,
                effect: flags_effect(false, false, true),
            },
        ),
        Sem::Blocking => None,
    }
}

/// The learned rules for colours below `n` other than 0 and 3, in
/// increasing colour order.
pub open spec fn learned_rules_below(m: Map<u8, Sem>, n: int) -> Seq<RuleView>
    decreases n,
{
    if n <= 0 {
        Seq::empty()
    } else {
        let prev = learned_rules_below(m, n - 1);
        let c = (n - 1) as u8;
        if c != 0 && c != 3 && m.contains_key(c) && learned_rule(c, m[c]) is Some {
            prev.push(learned_rule(c, m[c]).unwrap())
        } else {
            prev
        }
    }
}

/// The maximal program consistent with what was observed: floor advances
/// and the goal colour 3 wins (the stated priors), then one rule per
/// learned non-blocking colour.
pub open spec fn authored(m: Map<u8, Sem>) -> ProgramView {
    ProgramView {
        rules: seq![
            RuleView {
                on_target: 0,
                beyond_any_of: None,
                note: "floor"@,
                effect: flags_effect(true, false, false),
            },
            RuleView {
                on_target: 3,
                beyond_any_of: None,
                note: "goal"@,
                effect: flags_effect(true, true, false),
            },
        ] + learned_rules_below(m, 256),
        goal_absent_colors: Seq::empty(),
    }
}

/// The colours below `n` present on the board whose semantics is unknown
/// and not yet learned, in increasing order.
pub open spec fn unknown_below(b: Seq<Seq<u8>>, m: Map<u8, Sem>, n: int) -> Seq<u8>
    decreases n,
{
    if n <= 0 {
        Seq::empty()
    } else {
        let prev = unknown_below(b, m, n - 1);
        let c = (n - 1) as u8;
        if mystery_color(b, c) && !m.contains_key(c) {
            prev.push(c)
        } else {
            prev
        }
    }
}

/// The note of a probing response.
pub open spec fn probing_note(unknown: Seq<u8>, probe: Seq<Seq<char>>) -> Seq<char> {
    "probing ambiguous color(s) "@ + list_text(unknown) + " via "@ + quoted_list(probe)
        + " to learn their semantics"@
}

/// What a digest teaches.
fn observe(d: &TransitionDigest) -> (o: Option<(u8, Sem)>)
    ensures
        o == observed(d@),
{
    let ghost b = board(&d.state_before);
    let (px, py) = match locate(&d.state_before, 1) {
        Some(p) => p,
        None => {
            return None;
        },
    };
    proof {
        crate::grid::lemma_first_of_some(b, 1);
    }
    let (dx, dy) = crate::envs::delta(d.action.as_str());
    let tx = px as i128 + dx as i128;
    let ty = py as i128 + dy as i128;
    if !crate::grid::cell_in_bounds(&d.state_before, tx, ty) {
        return None;
    }
    let txu = tx as usize;
    let tyu = ty as usize;
    let target = d.state_before[tyu][txu];
    if target == 0 || target == 1 {
        return None;
    }
    let moved = match locate(&d.state_after, 1) {
        Some((ax, ay)) => ax == txu && ay == tyu,
        None => false,
    };
    let sem = if d.win {
        Sem::Winning
    } else if d.dead {
        Sem::Lethal
    } else if moved {
        Sem::Passable
    } else {
        Sem::Blocking
    };
    Some((target, sem))
}

/// Classifies each colour from the recorded history: what happened when the
/// player stepped toward a cell of that colour.
fn classify(timeline: &Vec<TransitionDigest>) -> (m: BTreeMap<u8, Sem>)
    ensures
        m@ == classified(digest_records(timeline@)),
{
    let ghost ts = digest_records(timeline@);
    let mut out: BTreeMap<u8, Sem> = BTreeMap::new();
    let mut i: usize = 0;
    assert(ts.take(0) =~= Seq::<Record>::empty());
    while i < timeline.len()
        invariant
            ts == digest_records(timeline@),
            i <= timeline.len(),
            out@ == classified(ts.take(i as int)),
        decreases timeline.len() - i,
    {
        assert(ts.take(i + 1).drop_last() =~= ts.take(i as int));
        assert(ts.take(i + 1).last() == timeline@[i as int]@);
        match observe(&timeline[i]) {
            Some((c, s)) => {
                out.insert(c, s);
            },
            None => {},
        }
        i = i + 1;
    }
    assert(ts.take(timeline.len() as int) =~= ts);
    out
}

fn flags_rule(c: u8, note: &str, advances: bool, win: bool, dead: bool) -> (r: Rule)
    ensures
        r@ == (RuleView {
            on_target: c,
            beyond_any_of: None,
            note: note@,
            effect: flags_effect(advances, win, dead),
        }),
{
    let effect = Effect {
        player_advances: advances,
        push: false,
        win,
        dead,
        writes: Vec::new(),
        writes_when_beyond: None,
    };
    assert(effect@.writes =~= Seq::<CellWrite>::empty());
    Rule { on_target: c, beyond_any_of: None, note: owned(note), effect }
}

/// Builds the maximal world program consistent with what was observed.
fn author_program(sems: &BTreeMap<u8, Sem>) -> (p: RuleProgram)
    ensures
        p@ == authored(sems@),
{
    let mut rules: Vec<Rule> = Vec::new();
    rules.push(flags_rule(0, "floor", true, false, false));
    rules.push(flags_rule(3, "goal", true, true, false));
    let ghost base = crate::program::rule_views(rules@);
    let mut c: u16 = 0;
    while c < 256
        invariant
            c <= 256,
            base.len() == 2,
            crate::program::rule_views(rules@) == base + learned_rules_below(sems@, c as int),
        decreases 256 - c,
    {
        let cu = c as u8;
        let ghost before = rules@;
        let learned: Option<Rule> = if cu != 0 && cu != 3 {
            match sems.get(&cu) {
                Some(s) => match *s {
                    Sem::Passable => Some(flags_rule(cu, "learned passable", true, false, false)),
                    Sem::Winning => Some(flags_rule(cu, "learned winning", true, true, false)),
                    Sem::Lethal => Some(flags_rule(cu, "learned lethal", false, false, true)),
                    Sem::Blocking => None,
                },
                None => None,
            }
        } else {
            None
        };
        match learned {
            Some(r) => {
                assert(learned_rule(cu, sems@[cu]) == Some(r@));
                rules.push(r);
                assert(crate::program::rule_views(rules@) =~= crate::program::rule_views(before).push(
                    r@,
                ));
            },
            None => {},
        }
        assert(crate::program::rule_views(rules@) =~= base + learned_rules_below(sems@, c + 1));
        c = c + 1;
    }
    let p = RuleProgram { rules, goal_absent_colors: Vec::new() };
    assert(p@.goal_absent_colors =~= Seq::<u8>::empty());
    assert(p@.rules =~= authored(sems@).rules);
    p
}

/// Colours present on the board whose semantics is not yet observed.
fn unknown_colors(grid: &Grid, sems: &BTreeMap<u8, Sem>) -> (r: Vec<u8>)
    ensures
        r@ == unknown_below(board(grid), sems@, 256),
{
    let mut out: Vec<u8> = Vec::new();
    let mut c: u16 = 0;
    while c < 256
        invariant
            c <= 256,
            out@ == unknown_below(board(grid), sems@, c as int),
        decreases 256 - c,
    {
        let cu = c as u8;
        if cu != 0 && cu != 1 && cu != 3 && grid_has_color(grid, cu) {
            match sems.get(&cu) {
                Some(_) => {},
                None => {
                    out.push(cu);
                },
            }
        }
        c = c + 1;
    }
    out
}

/// The response to a request: the authored program, and either a probe of
/// the nearest unobserved colour (an experiment) or a plan.
pub fn respond(req: &DeliberationRequest) -> (r: DeliberationResponse)
    ensures
        ({
            let m = classified(digest_records(req.timeline@));
            let b = board(&req.current_grid);
            let unknown = unknown_below(b, m, 256);
            &&& r.revised_program matches Some(p) && p@ == authored(m)
            &&& r.intent@ == "experiment"@ || r.intent@ == "plan"@
            &&& r.intent@ == "experiment"@ ==> {
                &&& unknown.len() > 0
                &&& player_of(b) matches Some(s) && valid_probe(b, s, texts(r.actions@), unknown)
                &&& crate::planner::uses_only(texts(r.actions@), crate::envs::ACTIONS@)
                &&& crate::deliberators::no_shorter_probe(b, unknown, r.actions@.len() as int)
                &&& crate::deliberators::first_probe(b, unknown, crate::deliberators::bfs_key(texts(r.actions@)))
                &&& r.note@ == probing_note(unknown, texts(r.actions@))
            }
            &&& r.intent@ == "plan"@ ==> {
                &&& r.actions@.len() == 0
                &&& crate::deliberators::no_probe(b, unknown)
                &&& r.note@ == if unknown.len() > 0 {
                    "no reachable probe; planning with current model"@
                } else {
                    "mechanism fully classified; certify and plan to goal"@
                }
            }
            &&& unknown.len() == 0 ==> r.intent@ == "plan"@
        }),
{
    let sems = classify(&req.timeline);
    let program = author_program(&sems);
    let unknown = unknown_colors(&req.current_grid, &sems);
    if unknown.len() > 0 {
        match probe_path(&req.current_grid, &unknown) {
            Some(p) => {
                let mut note = String::new();
                push_str(&mut note, "probing ambiguous color(s) ");
                push_color_list(&mut note, &unknown);
                push_str(&mut note, " via ");
                push_quoted_list(&mut note, &p);
                push_str(&mut note, " to learn their semantics");
                proof {
                    reveal_strlit("experiment");
                    reveal_strlit("plan");
                }
                let intent = owned("experiment");
                assert("plan"@.len() != "experiment"@.len());
                assert(intent@ != "plan"@);
                assert(player_of(board(&req.current_grid)) matches Some(s) && valid_probe(
                    board(&req.current_grid),
                    s,
                    texts(p@),
                    unknown@,
                ));
                return DeliberationResponse {
                    revised_program: Some(program),
                    intent,
                    actions: p,
                    note,
                };
            },
            None => {
                proof {
                    reveal_strlit("experiment");
                    reveal_strlit("plan");
                }
                return DeliberationResponse {
                    revised_program: Some(program),
                    intent: owned("plan"),
                    actions: Vec::new(),
                    note: owned("no reachable probe; planning with current model"),
                };
            },
        }
    }
    proof {
        reveal_strlit("experiment");
        reveal_strlit("plan");
        assert("plan"@.len() == 4);
    }
    DeliberationResponse {
        revised_program: Some(program),
        intent: owned("plan"),
        actions: Vec::new(),
        note: owned("mechanism fully classified; certify and plan to goal"),
    }
}

/// The response to a request that could not be read: an experiment with no
/// program and no actions, noting the error.
pub fn unreadable_request(error: &str) -> (r: DeliberationResponse)
    ensures
        r.revised_program is None,
        r.intent@ == "experiment"@,
        r.actions@.len() == 0,
        r.note@ == "could not parse request: "@ + error@,
{
    let mut note = String::new();
    push_str(&mut note, "could not parse request: ");
    push_str(&mut note, error);
    DeliberationResponse {
        revised_program: None,
        intent: owned("experiment"),
        actions: Vec::new(),
        note,
    }
}


proof fn lemma_learned_rules(m: Map<u8, Sem>, n: int)
    requires
        0 <= n <= 256,
    ensures
        ({
            let rs = learned_rules_below(m, n);
            &&& forall|i: int|
                0 <= i < rs.len() ==> {
                    let c = (#[trigger] rs[i]).on_target;
                    &&& (c as int) < n
                    &&& c != 0 && c != 3
                    &&& m.contains_key(c)
                    &&& learned_rule(c, m[c]) == Some(rs[i])
                }
            &&& forall|i: int, j: int| 0 <= i < j < rs.len() ==> rs[i].on_target < rs[j].on_target
            &&& forall|c: u8|
                (c as int) < n && c != 0 && c != 3 && m.contains_key(c) && #[trigger] learned_rule(c, m[c])
                    is Some ==> exists|i: int| 0 <= i < rs.len() && rs[i].on_target == c
        }),
    decreases n,
{
    if n > 0 {
        lemma_learned_rules(m, n - 1);
        let prev = learned_rules_below(m, n - 1);
        let rs = learned_rules_below(m, n);
        let c = (n - 1) as u8;
        if c != 0 && c != 3 && m.contains_key(c) && learned_rule(c, m[c]) is Some {
            assert(rs == prev.push(learned_rule(c, m[c]).unwrap()));
            assert(rs[rs.len() - 1].on_target == c);
            assert forall|d: u8|
                (d as int) < n && d != 0 && d != 3 && m.contains_key(d) && #[trigger] learned_rule(d, m[d])
                    is Some implies exists|i: int| 0 <= i < rs.len() && rs[i].on_target == d by {
                if d == c {
                    assert(rs[rs.len() - 1].on_target == d);
                } else {
                    let i = choose|i: int| 0 <= i < prev.len() && prev[i].on_target == d;
                    assert(rs[i] == prev[i]);
                }
            }
        } else {
            assert(rs == prev);
            assert forall|d: u8|
                (d as int) < n && d != 0 && d != 3 && m.contains_key(d) && #[trigger] learned_rule(d, m[d])
                    is Some implies exists|i: int| 0 <= i < rs.len() && rs[i].on_target == d by {
                assert(d != c);
            }
        }
    }
}

/// The program authored from learned semantics replays what taught them: a
/// move into a colour other than floor (0) and the goal (3) wins exactly
/// when that colour was learned winning, dies exactly when it was learned
/// lethal, and moves the player onto it (leaving floor behind) exactly when
/// it was learned passable or winning; a colour learned blocking, or not
/// learned at all, blocks the move.
pub proof fn lemma_authored_replays(m: Map<u8, Sem>, b: Seq<Seq<u8>>, a: Seq<char>, px: int, py: int)
    requires
        player_of(b) == Some((px, py)),
        crate::grid::in_bounds(b, px + action_delta(a).0, py + action_delta(a).1),
        b[py + action_delta(a).1][px + action_delta(a).0] != 0,
        b[py + action_delta(a).1][px + action_delta(a).0] != 3,
    ensures
        ({
            let (tx, ty) = (px + action_delta(a).0, py + action_delta(a).1);
            let c = b[ty][tx];
            let s = if m.contains_key(c) {
                Some(m[c])
            } else {
                None
            };
            let o = crate::program::program_step(authored(m), b, a);
            &&& o.win == (s == Some(Sem::Winning))
            &&& o.dead == (s == Some(Sem::Lethal))
            &&& !o.level_up
            &&& o.grid == if s == Some(Sem::Passable) || s == Some(Sem::Winning) {
                crate::grid::set_cell_spec(crate::grid::set_cell_spec(b, px, py, 0), tx, ty, 1)
            } else {
                b
            }
        }),
{
    let (dx, dy) = action_delta(a);
    let tx = px + dx;
    let ty = py + dy;
    let c = b[ty][tx];
    let p = authored(m);
    let learned = learned_rules_below(m, 256);
    lemma_learned_rules(m, 256);
    assert(p.rules.len() == 2 + learned.len());
    assert forall|i: int| 0 <= i < learned.len() implies p.rules[2 + i] == #[trigger] learned[i] by {}
    if m.contains_key(c) && learned_rule(c, m[c]) is Some {
        assert(learned_rule(c, m[c]) is Some);
        let i = choose|i: int| 0 <= i < learned.len() && learned[i].on_target == c;
        let k = 2 + i;
        assert(p.rules[k] == learned[i]);
        assert(learned_rule(c, m[c]) == Some(learned[i]));
        assert(crate::program::matches_move(p.rules[k], b, tx, ty, px + 2 * dx, py + 2 * dy));
        assert forall|j: int| 0 <= j < k implies !crate::program::matches_move(
            #[trigger] p.rules[j],
            b,
            tx,
            ty,
            px + 2 * dx,
            py + 2 * dy,
        ) by {
            if j >= 2 {
                assert(p.rules[j] == learned[j - 2]);
                assert(learned[j - 2].on_target < learned[i].on_target);
            }
        }
        crate::program::lemma_step_first_match(p, b, a, px, py, k);
        let e = p.rules[k].effect;
        assert(crate::program::apply_writes(
            crate::grid::set_cell_spec(crate::grid::set_cell_spec(b, px, py, 0), tx, ty, 1),
            e.writes,
        ) == crate::grid::set_cell_spec(crate::grid::set_cell_spec(b, px, py, 0), tx, ty, 1));
        assert(crate::program::apply_writes(b, e.writes) == b);
    } else {
        assert forall|j: int| 0 <= j < p.rules.len() implies !crate::program::matches_move(
            #[trigger] p.rules[j],
            b,
            tx,
            ty,
            px + 2 * dx,
            py + 2 * dy,
        ) by {
            if j >= 2 {
                let r = learned[j - 2];
                assert(p.rules[j] == r);
                if r.on_target == c {
                    assert(learned_rule(c, m[c]) == Some(r));
                }
            }
        }
        crate::program::lemma_step_blocked(p, b, a, px, py);
    }
}
} // verus!
