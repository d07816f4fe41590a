use schema::agent::{Deliberation, Deliberator, Intent, SchemaAgent};
use schema::backtest::{run_backtest, MismatchKind};
use schema::deliberators::{probe_path, CartDeliberator, ToggleDeliberator};
use schema::demo_provider::{respond, unreadable_request};
use schema::envs::{delta, find_color, CartDock, ToggleMaze, ACTIONS};
use schema::executor::{commit_actions, Environment, Observation};
use schema::gateway::{PairedDevice, PairingCode};
use schema::model::{GoalRule, Prediction, StepRule, WorldModel};
use schema::planner::{run_bfs, GoalVia};
use schema::program::{CellWrite, Effect, Rule, RuleProgram};
use schema::protocol::{DeliberationRequest, DeliberationResponse, TransitionDigest};
use schema::session::Session;
use schema::backtest::BacktestReport;
use schema::timeline::{Grid, Timeline, Transition};

fn toggle_program() -> RuleProgram {
    RuleProgram {
        rules: vec![
            Rule::new(0, Effect::advance()),
            Rule::new(3, Effect::advance_win()),
            Rule::new(7, Effect::advance()),
        ],
        goal_absent_colors: vec![],
    }
}

fn cart_program() -> RuleProgram {
    let push = Effect {
        player_advances: true,
        push: true,
        writes: vec![CellWrite { x: 3, y: 2, color: 0 }],
        writes_when_beyond: Some(6),
        ..Effect::default()
    };
    RuleProgram {
        rules: vec![
            Rule::new(0, Effect::advance()),
            Rule::new(3, Effect::advance_win()),
            Rule { on_target: 4, beyond_any_of: Some(vec![0, 6]), note: String::new(), effect: push },
        ],
        goal_absent_colors: vec![],
    }
}

fn walk(env: &mut ToggleMaze, tl: &mut Timeline, actions: &[&str]) -> Grid {
    let mut cur = env.reset().grid;
    for &a in actions {
        let obs = env.step(a);
        tl.append(cur.clone(), a, obs.grid.clone(), obs.level_up, obs.dead, obs.win);
        cur = obs.grid;
    }
    cur
}

fn toggle_start() -> Grid {
    vec![vec![5, 5, 5, 5, 5, 5, 5], vec![5, 1, 0, 7, 0, 3, 5], vec![5, 5, 5, 5, 5, 5, 5]]
}

// -- environments -----------------------------------------------------------

#[test]
fn deltas_and_colour_search() {
    assert_eq!(delta("up"), (0, -1));
    assert_eq!(delta("down"), (0, 1));
    assert_eq!(delta("left"), (-1, 0));
    assert_eq!(delta("right"), (1, 0));
    assert_eq!(delta("jump"), (0, 0));
    let g = toggle_start();
    assert_eq!(find_color(&g, 1), vec![(1, 1)]);
    assert_eq!(find_color(&g, 0), vec![(2, 1), (4, 1)]);
    assert_eq!(find_color(&g, 9), vec![]);
}

#[test]
fn toggle_maze_walls_block_and_mystery_passes() {
    let mut env = ToggleMaze::new();
    assert_eq!(env.reset().grid, toggle_start());
    let o = env.step("up");
    assert_eq!(o, Observation::of(toggle_start()));
    let o = env.step("right");
    assert_eq!(o.grid[1], vec![5, 0, 1, 7, 0, 3, 5]);
    let o = env.step("right");
    assert_eq!(o.grid[1], vec![5, 0, 0, 1, 0, 3, 5]);
    env.step("right");
    let o = env.step("right");
    assert!(o.win);
    assert_eq!(env.actions_taken(), 5);
    assert_eq!(env.legal_actions(), &ACTIONS);
    assert_eq!(ToggleMaze::default().reset().grid, toggle_start());
}

#[test]
fn cart_dock_opens_gate_when_cart_docks() {
    let mut env = CartDock::default();
    env.reset();
    env.step("right");
    let o = env.step("right");
    assert_eq!(o.grid[1], vec![5, 0, 0, 1, 4, 6, 5]);
    assert_eq!(o.grid[2][3], 5);
    let o = env.step("right");
    assert_eq!(o.grid[1], vec![5, 0, 0, 0, 1, 4, 5]);
    assert_eq!(o.grid[2][3], 0);
    let o = env.step("right");
    assert_eq!(o.grid[1], vec![5, 0, 0, 0, 1, 4, 5]);
    let o = env.step("down");
    assert!(!o.win);
    assert_eq!(CartDock::GATE, (3, 2));
}

// -- timeline ---------------------------------------------------------------

#[test]
fn timeline_indexes_by_position() {
    let mut env = ToggleMaze::new();
    let mut tl = Timeline::new();
    assert!(tl.is_empty());
    assert!(tl.last().is_none());
    walk(&mut env, &mut tl, &["up", "right", "right"]);
    assert_eq!(tl.len(), 3);
    assert!(!tl.is_empty());
    assert!(tl.get(3).is_none());
    let indices: Vec<usize> = tl.iter().map(|t| t.index).collect();
    assert_eq!(indices, vec![0, 1, 2]);
    let mut actions: Vec<String> = Vec::new();
    for t in &tl {
        actions.push(t.action.clone());
    }
    assert_eq!(actions, vec!["up", "right", "right"]);
    assert_eq!(tl.last().unwrap().action, "right");
    assert_eq!(tl.get(0).unwrap().action, "up");
    assert!(!tl.get(0).unwrap().terminal());
}

// -- models -----------------------------------------------------------------

#[test]
fn program_step_covers_each_effect() {
    let prog = toggle_program();
    let g = toggle_start();
    let p = prog.step(&g, "up");
    assert_eq!(p, Prediction::of(g.clone()));
    let p = prog.step(&g, "right");
    assert_eq!(p.grid[1], vec![5, 0, 1, 7, 0, 3, 5]);
    assert!(!p.terminal());
    let near_goal = vec![vec![5, 5, 5], vec![5, 1, 3], vec![5, 5, 5]];
    let p = prog.step(&near_goal, "right");
    assert!(p.win && p.terminal());
    assert_eq!(p.grid[1], vec![5, 0, 1]);
    let lethal = RuleProgram {
        rules: vec![Rule::new(3, Effect { dead: true, ..Effect::default() })],
        goal_absent_colors: vec![],
    };
    let p = lethal.step(&near_goal, "right");
    assert_eq!(p, Prediction::dead(near_goal.clone()));
    let no_player = vec![vec![0, 0]];
    assert_eq!(prog.step(&no_player, "right"), Prediction::of(no_player.clone()));
    assert_eq!(RuleProgram::vacuous().step(&g, "right"), Prediction::of(g.clone()));
}

#[test]
fn program_push_is_guarded_by_beyond() {
    let prog = cart_program();
    let g = vec![vec![5, 5, 5, 5, 5], vec![5, 1, 4, 5, 5], vec![5, 5, 5, 5, 5]];
    assert_eq!(prog.step(&g, "right"), Prediction::of(g.clone()));
    let g2 = vec![vec![5, 5, 5, 5, 5], vec![5, 1, 4, 0, 5], vec![5, 5, 5, 5, 5]];
    let p = prog.step(&g2, "right");
    assert_eq!(p.grid, vec![vec![5, 5, 5, 5, 5], vec![5, 0, 1, 4, 5], vec![5, 5, 5, 5, 5]]);
}

#[test]
fn program_goal_is_absence_of_colours() {
    let prog = RuleProgram { rules: vec![], goal_absent_colors: vec![7] };
    assert!(prog.is_goal(&vec![vec![1, 0]]));
    assert!(!prog.is_goal(&toggle_start()));
    assert!(!RuleProgram::vacuous().is_goal(&vec![vec![1, 0]]));
    let model = WorldModel::from_program(prog, "absent 7");
    assert!(model.is_goal(&vec![vec![1, 0]]));
    assert_eq!(model.history, vec!["absent 7".to_string()]);
    assert_eq!(model.revision, 0);
}

#[test]
fn revisions_are_counted_and_recorded() {
    let mut model = WorldModel::vacuous();
    assert_eq!(model.history, vec!["vacuous initial model".to_string()]);
    assert!(model.program().is_none());
    model.revise_program(toggle_program(), "toggle");
    assert_eq!(model.revision, 1);
    assert_eq!(model.history, vec!["vacuous initial model".to_string(), "toggle".to_string()]);
    assert_eq!(model.program(), Some(&toggle_program()));
    let g = toggle_start();
    assert_eq!(model.step(&g, "right"), toggle_program().step(&g, "right"));
}

#[test]
fn closure_models_answer_through_the_closures() {
    let model = WorldModel::new(
        Box::new(|s: &Grid, _a: &str| Prediction::win(s.clone())),
        Box::new(|s: &Grid| s.len() == 3),
        "closures",
    );
    let g = toggle_start();
    assert_eq!(model.step(&g, "left"), Prediction::win(g.clone()));
    assert!(model.is_goal(&g));
    assert!(!model.is_goal(&vec![vec![1]]));
}

// -- backtest ---------------------------------------------------------------

#[test]
fn backtest_summaries_and_mismatch_details() {
    let mut env = ToggleMaze::new();
    let mut tl = Timeline::new();
    let empty = run_backtest(&WorldModel::vacuous(), &tl);
    assert!(!empty.green());
    assert_eq!(empty.summary(), "0 / 0 exact after 0 steps; 0 mismatch(es), 0 skipped");
    walk(&mut env, &mut tl, &["right", "right", "right", "right"]);
    let good = run_backtest(&WorldModel::from_program(toggle_program(), "toggle"), &tl);
    assert!(good.green());
    assert_eq!(good.summary(), "3 / 3 exact after 4 steps; 0 mismatch(es), 1 skipped");
    let bad = run_backtest(&WorldModel::vacuous(), &tl);
    assert!(!bad.green());
    assert_eq!(bad.mismatches.len(), 4);
    let first = bad.first_mismatch().unwrap();
    assert_eq!(first.kind, MismatchKind::Grid);
    assert_eq!(first.detail, "grid mismatch at step 0: cell (1,1) predicted 1, observed 0");
    let last = &bad.mismatches[3];
    assert_eq!(last.kind, MismatchKind::Flags);
    assert_eq!(
        last.detail,
        "predicted (level_up=false, dead=false, win=false) but observed (level_up=false, dead=false, win=true) at step 3"
    );
    assert_eq!(bad.summary(), "0 / 4 exact after 4 steps; 4 mismatch(es), 0 skipped");
}

// -- execution --------------------------------------------------------------

#[test]
fn commit_summaries() {
    let mut env = ToggleMaze::new();
    let obs = env.reset();
    let mut tl = Timeline::new();
    let plan: Vec<String> = ["right", "right", "right", "right"].map(String::from).to_vec();
    let rep = commit_actions(&mut env, &WorldModel::vacuous(), &mut tl, &obs.grid, &plan);
    assert!(rep.halted());
    assert_eq!(
        rep.summary(),
        "halted after 1/4 actions: grid misprediction at committed step 0; 3 queued action(s) discarded"
    );
    assert_eq!(rep.committed, plan);
    assert_eq!(tl.len(), 1);
    let mut env = ToggleMaze::new();
    let obs = env.reset();
    let mut tl = Timeline::new();
    let model = WorldModel::from_program(toggle_program(), "toggle");
    let rep = commit_actions(&mut env, &model, &mut tl, &obs.grid, &plan[..2].to_vec());
    assert_eq!(rep.summary(), "2/2 executed with 0 mispredictions -> ok");
    assert_eq!(rep.final_state[1], vec![5, 0, 0, 1, 0, 3, 5]);
    let rep = commit_actions(&mut env, &model, &mut tl, &rep.final_state.clone(), &plan);
    assert_eq!(rep.summary(), "2/4 executed with 0 mispredictions -> WIN");
    assert_eq!(rep.discarded, vec!["right", "right"]);
    assert_eq!(tl.len(), 4);
}

// -- planning ---------------------------------------------------------------

#[test]
fn bfs_reports() {
    let g = vec![vec![1, 0]];
    let at_goal = WorldModel::from_program(
        RuleProgram { rules: vec![], goal_absent_colors: vec![7] },
        "absent 7",
    );
    let rep = run_bfs(&at_goal, &g, &ACTIONS, 10);
    assert_eq!(rep.plan, Some(vec![]));
    assert_eq!(rep.goal_via, Some(GoalVia::IsGoal));
    assert_eq!(rep.summary(), "BFS: goal in 0 step(s) via is_goal; expanded 0 nodes, 1 distinct states");
    let never = run_bfs(&WorldModel::vacuous(), &g, &ACTIONS, 10);
    assert!(!never.found());
    assert_eq!(never.summary(), "BFS: no goal found; expanded 1 nodes, 1 distinct states");
    let model = WorldModel::from_program(toggle_program(), "toggle");
    let rep = run_bfs(&model, &toggle_start(), &ACTIONS, 100_000);
    assert_eq!(rep.plan.unwrap(), vec!["right", "right", "right", "right"]);
    assert_eq!(GoalVia::Win.as_str(), "win");
    assert_eq!(GoalVia::LevelUp.as_str(), "level_up");
}

#[test]
fn bfs_takes_the_first_plan_in_action_order() {
    let g = vec![vec![3, 0, 3], vec![0, 1, 0]];
    let model = WorldModel::from_program(toggle_program(), "toggle");
    let rep = run_bfs(&model, &g, &ACTIONS, 1_000);
    assert_eq!(rep.plan.unwrap(), vec!["up", "left"]);
    assert_eq!(rep.goal_via, Some(GoalVia::Win));
}

#[test]
fn probe_takes_the_first_walk_in_action_order() {
    let g = vec![vec![0, 0, 0], vec![4, 1, 4], vec![0, 0, 0]];
    assert_eq!(probe_path(&g, &vec![4]), Some(vec!["left".to_string()]));
    let g = vec![vec![0, 4, 0], vec![0, 1, 0], vec![0, 4, 0]];
    assert_eq!(probe_path(&g, &vec![4]), Some(vec!["up".to_string()]));
    let g = vec![vec![0, 0, 0], vec![0, 1, 0], vec![0, 0, 0]];
    assert_eq!(probe_path(&g, &vec![4]), None);
}

// -- programs as text -------------------------------------------------------

#[test]
fn pretty_form_of_programs() {
    assert_eq!(RuleProgram::vacuous().to_pretty(), "(no rules: everything blocked)\n");
    assert_eq!(
        toggle_program().to_pretty(),
        "on color 0 -> advance\non color 3 -> advance+win\non color 7 -> advance\n"
    );
    assert_eq!(
        cart_program().to_pretty(),
        "on color 0 -> advance\non color 3 -> advance+win\non color 4 beyond∈[0, 6] -> push+advance+writes (3,2)=0 when beyond=6\n"
    );
    let blocked = RuleProgram { rules: vec![Rule::new(5, Effect::default())], goal_absent_colors: vec![] };
    assert_eq!(blocked.to_pretty(), "on color 5 -> block\n");
}

#[test]
fn diff_lines_in_order() {
    let base = RuleProgram {
        rules: vec![Rule::new(0, Effect::advance()), Rule::new(3, Effect::advance_win())],
        goal_absent_colors: vec![],
    };
    assert_eq!(toggle_program().diff(&base), vec!["+ rule on color 7"]);
    assert_eq!(base.diff(&toggle_program()), vec!["- rule on color 7"]);
    let mut changed = base.clone();
    changed.rules[0].effect = Effect { dead: true, ..Effect::default() };
    changed.goal_absent_colors = vec![2, 4];
    assert_eq!(
        changed.diff(&base),
        vec!["~ rule on color 0 effect changed", "~ goal predicate: absent[] -> absent[2, 4]"]
    );
}

#[test]
fn diff_of_a_program_with_itself_is_empty() {
    assert!(toggle_program().diff(&toggle_program()).is_empty());
    assert!(cart_program().diff(&cart_program()).is_empty());
    assert!(RuleProgram::vacuous().diff(&RuleProgram::vacuous()).is_empty());
}

// -- sessions ---------------------------------------------------------------

#[test]
fn session_restores_model_and_timeline() {
    let mut env = ToggleMaze::new();
    let mut tl = Timeline::new();
    walk(&mut env, &mut tl, &["right", "right"]);
    let mut model = WorldModel::from_program(toggle_program(), "toggle");
    model.revise_program(toggle_program(), "again");
    let snap = Session::capture("toggle demo", &model, &tl);
    assert_eq!(snap.task, "toggle demo");
    assert_eq!(snap.revision, 1);
    assert_eq!(snap.timeline.len(), 2);
    let model2 = snap.restore_model();
    let tl2 = snap.restore_timeline();
    assert_eq!(model2.revision, model.revision);
    assert_eq!(model2.history, model.history);
    assert_eq!(model2.program(), model.program());
    assert_eq!(tl2.len(), tl.len());
    for i in 0..tl.len() {
        assert_eq!(tl2.get(i), tl.get(i));
    }
    assert_eq!(run_backtest(&model2, &tl2).summary(), run_backtest(&model, &tl).summary());
    let blank = Session::capture("blank", &WorldModel::vacuous(), &Timeline::new());
    assert_eq!(blank.program, RuleProgram::vacuous());
    assert_eq!(blank.restore_timeline().len(), 0);
}

// -- protocol ---------------------------------------------------------------

#[test]
fn requests_carry_the_turn() {
    let mut env = ToggleMaze::new();
    let mut tl = Timeline::new();
    let cur = walk(&mut env, &mut tl, &["up"]);
    let model = WorldModel::vacuous();
    let bt = run_backtest(&model, &tl);
    let req = DeliberationRequest::build(&cur, &model, &tl, &bt, tl.last());
    assert_eq!(req.current_grid, cur);
    assert_eq!(req.legal_actions, vec!["up", "down", "left", "right"]);
    assert_eq!(req.timeline.len(), 1);
    assert_eq!(req.timeline[0].action, "up");
    assert_eq!(req.current_program, RuleProgram::vacuous());
    assert_eq!(req.backtest_summary, "1 / 1 exact after 1 steps; 0 mismatch(es), 0 skipped");
    assert_eq!(req.counterexample.as_ref().map(|d| d.index), Some(0));
    let d = TransitionDigest::from_transition(tl.get(0).unwrap());
    assert_eq!(d.state_before, toggle_start());
}

#[test]
fn responses_install_programs_and_read_intent() {
    let mut model = WorldModel::vacuous();
    let resp = DeliberationResponse {
        revised_program: Some(toggle_program()),
        intent: "plan".to_string(),
        actions: vec![],
        note: String::new(),
    };
    let d = resp.apply(&mut model);
    assert_eq!(d.intent, Intent::Plan);
    assert_eq!(model.revision, 1);
    assert_eq!(model.history.last().unwrap(), "protocol revision");
    assert_eq!(model.program(), Some(&toggle_program()));
    let resp = DeliberationResponse {
        revised_program: None,
        intent: "experiment".to_string(),
        actions: vec!["up".to_string()],
        note: "look up".to_string(),
    };
    let d = resp.apply(&mut model);
    assert_eq!(d.intent, Intent::Experiment);
    assert_eq!(d.actions, vec!["up"]);
    assert_eq!(d.note, "look up");
    assert_eq!(model.revision, 1);
    let d = DeliberationResponse::unparseable("expected value at line 1 column 1");
    assert_eq!(d.note, "unparseable deliberation response: expected value at line 1 column 1");
    assert_eq!(d.intent, Intent::Experiment);
    assert!(d.actions.is_empty());
}

#[test]
fn scripted_provider_probes_then_plans() {
    let mut env = ToggleMaze::new();
    let mut tl = Timeline::new();
    let model = WorldModel::vacuous();
    let cur = env.reset().grid;
    let bt = run_backtest(&model, &tl);
    let r = respond(&DeliberationRequest::build(&cur, &model, &tl, &bt, None));
    assert_eq!(r.intent, "experiment");
    assert_eq!(r.actions, vec!["up"]);
    assert_eq!(r.note, "probing ambiguous color(s) [5, 7] via [\"up\"] to learn their semantics");
    let p = r.revised_program.unwrap();
    assert_eq!(p.rules.iter().map(|r| r.on_target).collect::<Vec<_>>(), vec![0, 3]);
    assert_eq!(p.rules[0].note, "floor");

    let cur = walk(&mut env, &mut tl, &["up"]);
    let bt = run_backtest(&model, &tl);
    let r = respond(&DeliberationRequest::build(&cur, &model, &tl, &bt, None));
    assert_eq!(r.actions, vec!["right", "right"]);
    assert_eq!(r.note, "probing ambiguous color(s) [7] via [\"right\", \"right\"] to learn their semantics");

    let cur = walk(&mut env, &mut tl, &["up", "right", "right"]);
    let bt = run_backtest(&model, &tl);
    let r = respond(&DeliberationRequest::build(&cur, &model, &tl, &bt, None));
    assert_eq!(r.intent, "plan");
    assert!(r.actions.is_empty());
    assert_eq!(r.note, "mechanism fully classified; certify and plan to goal");
    let p = r.revised_program.unwrap();
    assert_eq!(p.rules.len(), 3);
    assert_eq!(p.rules[2].on_target, 7);
    assert_eq!(p.rules[2].note, "learned passable");
    assert!(p.rules[2].effect.player_advances);

    let e = unreadable_request("EOF while parsing");
    assert_eq!(e.note, "could not parse request: EOF while parsing");
    assert_eq!(e.intent, "experiment");
    assert!(e.revised_program.is_none());
}

// -- deliberators -----------------------------------------------------------

#[test]
fn toggle_deliberator_first_turn() {
    let g = toggle_start();
    let mut delib = ToggleDeliberator::new(&g);
    let mut model = WorldModel::vacuous();
    let tl = Timeline::new();
    let bt = run_backtest(&model, &tl);
    let d = delib.deliberate(&g, &mut model, &tl, &bt, None);
    assert_eq!(d.intent, Intent::Experiment);
    assert_eq!(d.actions, vec!["up"]);
    assert_eq!(
        d.note,
        "Ambiguity over colors [5, 7]: committing discriminating probe [\"up\"]; outcomes differ across 9 surviving candidates."
    );
    assert_eq!(model.revision, 1);
    assert_eq!(
        model.history.last().unwrap(),
        "mechanism hypothesis {5: Blocking, 7: Blocking} (9 candidate(s) consistent with 0-step history)"
    );
}

#[test]
fn cart_deliberator_learns_the_reflow() {
    let mut env = CartDock::new();
    let first = env.reset();
    let delib = CartDeliberator::new(&first.grid);
    assert_eq!(delib.dock_cells, vec![(5, 1)]);
    let mut agent = SchemaAgent::new(env, WorldModel::vacuous(), delib);
    let log = agent.run();
    assert!(log.won);
    assert!(agent.deliberator.unified);
    assert_eq!(
        agent.model.history[1],
        "initial representation: static board + cart sprite; walls immutable"
    );
    assert!(agent.model.history.iter().any(|h| h
        == "representation revision: cart unified as a board cell; dock event rewrites cells [(3, 2)] to observed values (learned from counterexample diff)"));
    assert!(log.notes.iter().any(|n| n
        == "Counterexample at dock: sprite-overlay representation cannot express the board reflow. Revised representation jointly with rules; learned reflow {(3, 2): 0}."));
    assert!(log.notes.iter().any(|n| n.starts_with(
        "Goal unreachable under current model; driving cart to dock as observation point (BFS: goal in 3 step(s) via is_goal"
    )));
    assert_eq!(log.revisions_seen, agent.model.revision);
    assert_eq!(log.env_actions, agent.env.actions_taken());
}

// -- gateway records ----------------------------------------------------------

#[test]
fn gateway_records_hold_their_fields() {
    let d = PairedDevice {
        id: "dev-1".to_string(),
        name: "phone".to_string(),
        token_hash: "h".to_string(),
        apns_token: None,
        paired_at: "2024-01-01T00:00:00Z".to_string(),
        last_seen: "2024-01-02T00:00:00Z".to_string(),
    };
    let c = PairingCode {
        code: "123456".to_string(),
        created_at: "t0".to_string(),
        expires_at: "t1".to_string(),
    };
    assert_eq!(d.clone().name, "phone");
    assert!(d.apns_token.is_none());
    assert_eq!(c.clone().code, "123456");
}

#[test]
fn commit_on_the_maze_halts_where_the_vacuous_model_fails() {
    let mut env = ToggleMaze::new();
    let current = env.reset().grid;
    assert_eq!(current, vec![vec![5; 7], vec![5, 1, 0, 7, 0, 3, 5], vec![5; 7]]);
    env.replays_rule();
    let mut tl = Timeline::new();
    let plan: Vec<String> = ["up", "right", "right"].map(String::from).to_vec();
    let r = commit_actions(&mut env, &WorldModel::vacuous(), &mut tl, &current, &plan);
    assert_eq!(r.executed, vec!["up", "right"]);
    assert_eq!(r.discarded, vec!["right"]);
    assert_eq!(r.committed, plan);
    assert_eq!(r.mispredictions, 1);
    assert_eq!(tl.len(), 2);
    assert_eq!(r.counterexample, tl.get(1).cloned());
    assert_eq!(r.counterexample_detail, "grid misprediction at committed step 1");
    assert_eq!(r.final_state, vec![vec![5; 7], vec![5, 0, 1, 7, 0, 3, 5], vec![5; 7]]);
    assert!(!r.win && !r.dead);
    assert_eq!(env.actions_taken(), 2);
}

/// Always asks for a plan, offering actions of its own.
struct Insistent;

impl Deliberator for Insistent {
    fn deliberate(
        &mut self,
        _current: &Grid,
        _model: &mut WorldModel,
        _timeline: &Timeline,
        _backtest: &BacktestReport,
        _counterexample: Option<&Transition>,
    ) -> Deliberation {
        Deliberation { actions: vec!["right".to_string()], intent: Intent::Plan, note: String::new() }
    }
}

#[test]
fn a_plan_request_sends_only_what_search_found() {
    let mut agent = SchemaAgent::new(ToggleMaze::new(), WorldModel::vacuous(), Insistent);
    agent.max_cycles = 3;
    let log = agent.run();
    assert_eq!(log.backtests.len(), 3);
    assert_eq!(log.bfs_reports.len(), 3);
    assert!(log.executions.is_empty());
    assert_eq!(agent.env.actions_taken(), 0);
    assert!(!log.won);
}

#[test]
fn closures_can_revise_a_model() {
    let mut m = WorldModel::vacuous();
    m.revise(
        Some(StepRule::from_fn(|g: &Grid, _a: &str| Prediction::win(g.clone()))),
        Some(GoalRule::from_fn(|_g: &Grid| true)),
        "closure revision",
    );
    assert_eq!(m.revision, 1);
    let g = vec![vec![1]];
    assert!(m.step(&g, "up").win);
    assert!(m.is_goal(&g));
}
