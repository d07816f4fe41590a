use schema::envs::{CartDock, ToggleMaze};
use schema::executor::Environment;
use schema::program::{CellWrite, Effect, Rule, RuleProgram};
use schema::backtest::run_backtest;
use schema::model::WorldModel;
use schema::session::Session;
use schema::timeline::{Grid, Timeline};

fn toggle_program() -> RuleProgram {
    RuleProgram {
        rules: vec![
            Rule::new(0, Effect::advance()),
            Rule::new(3, Effect::advance_win()),
            Rule::new(7, Effect::advance()),
        ],
        goal_absent_colors: vec![],
    }
}

fn cart_program() -> RuleProgram {
    let push = Effect {
        player_advances: true,
        push: true,
        writes: vec![CellWrite { x: 3, y: 2, color: 0 }],
        writes_when_beyond: Some(6),
        ..Effect::default()
    };
    RuleProgram {
        rules: vec![
            Rule::new(0, Effect::advance()),
            Rule::new(3, Effect::advance_win()),
            Rule { on_target: 4, beyond_any_of: Some(vec![0, 6]), note: String::new(), effect: push },
        ],
        goal_absent_colors: vec![],
    }
}

// -- Interpreter reproduces the native envs exactly ------------------------

fn cross_check<E: Environment>(mut env: E, prog: &RuleProgram, seq: &[&str]) -> usize {
    let mut cur: Grid = env.reset().grid;
    let mut mism = 0;
    for &a in seq {
        let pred = prog.step(&cur, a);
        let obs = env.step(a);
        let terminal = obs.win || obs.dead || obs.level_up;
        let flags_ok = pred.win == obs.win && pred.dead == obs.dead && pred.level_up == obs.level_up;
        let grid_ok = terminal || pred.grid == obs.grid;
        if !(flags_ok && grid_ok) {
            mism += 1;
        }
        cur = obs.grid;
        if terminal {
            break;
        }
    }
    mism
}

#[test]
fn interpreter_matches_toggle_maze() {
    // includes a wall bump (up) and a redundant left, then the winning line
    let seq = ["up", "right", "left", "right", "right", "right"];
    assert_eq!(cross_check(ToggleMaze::new(), &toggle_program(), &seq), 0);
}

#[test]
fn interpreter_matches_cart_dock_including_reflow() {
    // push cart onto dock (opens gate at (3,2)), then descend to the goal
    let seq = ["right", "right", "right", "right", "down", "down"];
    assert_eq!(cross_check(CartDock::new(), &cart_program(), &seq), 0);
}

// -- program diff ----------------------------------------------------------

#[test]
fn program_diff_detects_added_and_changed_rules() {
    let base = RuleProgram {
        rules: vec![Rule::new(0, Effect::advance()), Rule::new(3, Effect::advance_win())],
        goal_absent_colors: vec![],
    };
    let revised = toggle_program(); // adds the color-7 rule
    let d = revised.diff(&base);
    assert!(d.iter().any(|l| l.contains("+ rule on color 7")), "diff: {d:?}");

    // change an effect
    let mut changed = base.clone();
    changed.rules[0].effect = Effect { dead: true, ..Effect::default() };
    let d2 = changed.diff(&base);
    assert!(d2.iter().any(|l| l.contains("~ rule on color 0")), "diff: {d2:?}");
}

// -- Session capture/restore round-trip --------------------------------------

#[test]
fn session_roundtrips_mid_game() {
    // play a few real steps to build a timeline, with a program-backed model
    let mut env = ToggleMaze::new();
    let mut cur = env.reset().grid;
    let mut tl = Timeline::new();
    let model = WorldModel::from_program(toggle_program(), "toggle");
    for a in ["right", "right"] {
        let obs = env.step(a);
        tl.append(cur.clone(), a, obs.grid.clone(), obs.level_up, obs.dead, obs.win);
        cur = obs.grid;
    }
    let before = run_backtest(&model, &tl);
    assert!(before.green());

    // the snapshot's text encoding lives with the command line; the
    // snapshot itself restores here
    let restored = Session::capture("toggle demo", &model, &tl);

    let model2 = restored.restore_model();
    let tl2 = restored.restore_timeline();
    assert_eq!(tl2.len(), tl.len());
    assert_eq!(model2.revision, model.revision);
    assert_eq!(model2.program(), model.program());
    // the resumed model certifies the resumed timeline identically
    let after = run_backtest(&model2, &tl2);
    assert_eq!(after.summary(), before.summary());
    assert!(after.green());
}
