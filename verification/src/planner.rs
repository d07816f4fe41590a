//! run_bfs: breadth-first search entirely inside the model.
//!
//! The planner takes only the model; it cannot touch an environment.

use vstd::prelude::*;

use crate::grid::{board, copy_grid, grids_equal, Grid};
use crate::model::{Outcome, WorldModel};
use crate::text::{decimal, owned, push_decimal, push_str};

verus! {

broadcast use crate::grid::group_board;

#[derive(Debug, Clone, Copy, PartialEq, Eq, Structural)]
pub enum GoalVia {
    IsGoal,
    LevelUp,
    Win,
}

/// The name a goal route prints as.
pub open spec fn via_text(v: GoalVia) -> Seq<char> {
    match v {
        GoalVia::IsGoal => "is_goal"@,
        GoalVia::LevelUp => "level_up"@,
        GoalVia::Win => "win"@,
    }
}

impl GoalVia {
    /// The name of the route: `is_goal`, `level_up` or `win`.
    pub fn as_str(&self) -> (s: &'static str)
        ensures
            s@ == via_text(*self),
    {
        match self {
            GoalVia::IsGoal => "is_goal",
            GoalVia::LevelUp => "level_up",
            GoalVia::Win => "win",
        }
    }
}

#[derive(Debug)]
pub struct BfsReport {
    pub plan: Option<Vec<String>>,
    pub expanded: usize,
    pub distinct: usize,
    pub goal_via: Option<GoalVia>,
}

/// The actions of a plan as character sequences.
pub open spec fn plan_view(p: Vec<String>) -> Seq<Seq<char>> {
    crate::text::texts(p@)
}

/// A predicted step the search walks through: no flag raised and the goal
/// not reached.
pub open spec fn quiet(model: WorldModel, o: Outcome) -> bool {
    !o.dead && !o.win && !o.level_up && !model.goal(o.grid)
}

/// The state reached by following `plan` from `s` inside the model when
/// every step is quiet; None when some step is not.
pub open spec fn quiet_run(model: WorldModel, s: Seq<Seq<u8>>, plan: Seq<Seq<char>>) -> Option<
    Seq<Seq<u8>>,
>
    decreases plan.len(),
{
    if plan.len() == 0 {
        Some(s)
    } else {
        match quiet_run(model, s, plan.drop_last()) {
            None => None,
            Some(t) => {
                let o = model.outcome(t, plan.last());
                if quiet(model, o) {
                    Some(o.grid)
                } else {
                    None
                }
            },
        }
    }
}

/// A final predicted step reaches the goal by route `via`.
pub open spec fn reached(model: WorldModel, o: Outcome, via: GoalVia) -> bool {
    &&& !o.dead
    &&& match via {
        GoalVia::Win => o.win,
        GoalVia::LevelUp => !o.win && o.level_up,
        GoalVia::IsGoal => !o.win && !o.level_up && model.goal(o.grid),
    }
}

/// Following `plan` from `s` inside the model walks through quiet steps and
/// its last step reaches the goal by route `via` (the empty plan: `s` is a
/// goal state).
pub open spec fn plan_reaches(model: WorldModel, s: Seq<Seq<u8>>, plan: Seq<Seq<char>>, via: GoalVia) -> bool {
    if plan.len() == 0 {
        via == GoalVia::IsGoal && model.goal(s)
    } else {
        match quiet_run(model, s, plan.drop_last()) {
            None => false,
            Some(t) => reached(model, model.outcome(t, plan.last()), via),
        }
    }
}

/// Every action of `plan` is one of `actions`.
pub open spec fn uses_only(plan: Seq<Seq<char>>, actions: Seq<&str>) -> bool {
    forall|k: int| 0 <= k < plan.len() ==> listed(#[trigger] plan[k], actions)
}

/// Action `a` is one of `actions`.
pub open spec fn listed(a: Seq<char>, actions: Seq<&str>) -> bool {
    exists|j: int| 0 <= j < actions.len() && a == actions[j]@
}

/// The summary line of a search.
pub open spec fn bfs_summary_text(plan: Option<Seq<Seq<char>>>, via: Option<GoalVia>, expanded: nat, distinct: nat) -> Seq<char> {
    if plan is Some && via is Some {
        "BFS: goal in "@ + decimal(plan.unwrap().len()) + " step(s) via "@ + via_text(via.unwrap())
            + "; expanded "@ + decimal(expanded) + " nodes, "@ + decimal(distinct) + " distinct states"@
    } else {
        "BFS: no goal found; expanded "@ + decimal(expanded) + " nodes, "@ + decimal(distinct)
            + " distinct states"@
    }
}

impl BfsReport {
    pub fn found(&self) -> (r: bool)
        ensures
            r == self.plan is Some,
    {
        self.plan.is_some()
    }

    pub fn summary(&self) -> (s: String)
        ensures
            s@ == bfs_summary_text(
                match self.plan {
                    Some(p) => Some(plan_view(p)),
                    None => None,
                },
                self.goal_via,
                self.expanded as nat,
                self.distinct as nat,
            ),
    {
        let mut s = String::new();
        match (&self.plan, self.goal_via) {
            (Some(p), Some(via)) => {
                push_str(&mut s, "BFS: goal in ");
                push_decimal(&mut s, p.len());
                push_str(&mut s, " step(s) via ");
                push_str(&mut s, via.as_str());
                push_str(&mut s, "; expanded ");
                push_decimal(&mut s, self.expanded);
                push_str(&mut s, " nodes, ");
                push_decimal(&mut s, self.distinct);
                push_str(&mut s, " distinct states");
            },
            _ => {
                push_str(&mut s, "BFS: no goal found; expanded ");
                push_decimal(&mut s, self.expanded);
                push_str(&mut s, " nodes, ");
                push_decimal(&mut s, self.distinct);
                push_str(&mut s, " distinct states");
            },
        }
        s
    }
}

/// A copy of a plan.
pub fn copy_plan(p: &Vec<String>) -> (r: Vec<String>)
    ensures
        plan_view(r) == plan_view(*p),
{
    let mut out: Vec<String> = Vec::new();
    let mut i: usize = 0;
    while i < p.len()
        invariant
            i <= p.len(),
            out.len() == i,
            forall|k: int| 0 <= k < i ==> #[trigger] out[k]@ == p[k]@,
        decreases p.len() - i,
    {
        out.push(owned(p[i].as_str()));
        i = i + 1;
    }
    assert(plan_view(out) =~= plan_view(*p));
    out
}

fn contains_grid(states: &Vec<Grid>, g: &Grid) -> (r: bool)
    ensures
        r == exists|k: int| 0 <= k < states.len() && #[trigger] board(&states[k]) == board(g),
{
    let mut i: usize = 0;
    while i < states.len()
        invariant
            i <= states.len(),
            forall|k: int| 0 <= k < i ==> #[trigger] board(&states[k]) != board(g),
        decreases states.len() - i,
    {
        if grids_equal(&states[i], g) {
            return true;
        }
        i = i + 1;
    }
    false
}

/// Board `b` is among `seen` at a position reached by a plan at most
/// `bound` long.
pub open spec fn reached_within(seen: Seq<Seq<Seq<u8>>>, lens: Seq<int>, b: Seq<Seq<u8>>, bound: int) -> bool {
    exists|i: int| 0 <= i < seen.len() && #[trigger] seen[i] == b && lens[i] <= bound
}

/// Action `a` from state `s` either dies or leads quietly to a state seen
/// within `bound` steps.
pub open spec fn bfs_settled(
    model: WorldModel,
    seen: Seq<Seq<Seq<u8>>>,
    lens: Seq<int>,
    s: Seq<Seq<u8>>,
    bound: int,
    a: Seq<char>,
) -> bool {
    let o = model.outcome(s, a);
    !o.dead ==> quiet(model, o) && reached_within(seen, lens, o.grid, bound)
}

/// The first `n` actions from state `s` are settled.
pub open spec fn bfs_expanded(
    model: WorldModel,
    seen: Seq<Seq<Seq<u8>>>,
    lens: Seq<int>,
    actions: Seq<&str>,
    s: Seq<Seq<u8>>,
    bound: int,
    n: int,
) -> bool {
    forall|j: int| 0 <= j < n ==> #[trigger] bfs_settled(model, seen, lens, s, bound, actions[j]@)
}

/// Every seen state reached by a plan shorter than `limit` is expanded over
/// all the actions.
pub open spec fn bfs_explored(
    model: WorldModel,
    seen: Seq<Seq<Seq<u8>>>,
    lens: Seq<int>,
    actions: Seq<&str>,
    limit: int,
) -> bool {
    forall|i: int|
        0 <= i < seen.len() && lens[i] < limit ==> bfs_expanded(
            model,
            seen,
            lens,
            actions,
            #[trigger] seen[i],
            lens[i] + 1,
            actions.len() as int,
        )
}

/// The states of a search: `seen` holds distinct states, the start first;
/// state `k` is reached from `start` by a quiet plan over `actions` of
/// `lens[k]` steps, the lengths never decreasing; and the first `expanded`
/// states are expanded over all the actions, so that no step out of them
/// reaches the goal.
pub open spec fn bfs_frontier(
    model: WorldModel,
    start: Seq<Seq<u8>>,
    actions: Seq<&str>,
    seen: Seq<Seq<Seq<u8>>>,
    lens: Seq<int>,
    expanded: int,
) -> bool {
    &&& seen.len() == lens.len()
    &&& seen.len() >= 1
    &&& seen[0] == start
    &&& lens[0] == 0
    &&& forall|i: int, j: int| 0 <= i < j < seen.len() ==> seen[i] != seen[j]
    &&& forall|i: int, j: int| 0 <= i <= j < lens.len() ==> lens[i] <= lens[j]
    &&& 0 <= expanded <= seen.len()
    &&& forall|k: int|
        0 <= k < seen.len() ==> #[trigger] reached_by_plan(model, start, actions, seen[k], lens[k])
    &&& forall|k: int|
        0 <= k < expanded ==> bfs_expanded(
            model,
            seen,
            lens,
            actions,
            #[trigger] seen[k],
            lens[k] + 1,
            actions.len() as int,
        )
}

/// A search that found nothing saw `distinct` states and expanded the first
/// `expanded` of them in breadth-first order: all of them, or as many as the
/// budget `max_nodes` allowed.
pub open spec fn searched(
    model: WorldModel,
    start: Seq<Seq<u8>>,
    actions: Seq<&str>,
    expanded: int,
    distinct: int,
    max_nodes: int,
) -> bool {
    exists|seen: Seq<Seq<Seq<u8>>>, lens: Seq<int>|
        #![trigger bfs_frontier(model, start, actions, seen, lens, expanded)]
        bfs_frontier(model, start, actions, seen, lens, expanded) && seen.len() == distinct && (
        expanded == distinct || expanded == max_nodes)
}

/// Some quiet plan over `actions` of `n` steps leads from `start` to `b`.
pub open spec fn reached_by_plan(
    model: WorldModel,
    start: Seq<Seq<u8>>,
    actions: Seq<&str>,
    b: Seq<Seq<u8>>,
    n: int,
) -> bool {
    exists|p: Seq<Seq<char>>|
        uses_only(p, actions) && p.len() == n && #[trigger] quiet_run(model, start, p) == Some(b)
}

/// No plan over `actions` reaches the goal from `s` inside the model.
pub open spec fn unreachable_goal(model: WorldModel, s: Seq<Seq<u8>>, actions: Seq<&str>) -> bool {
    forall|p: Seq<Seq<char>>, via: GoalVia|
        #![trigger plan_reaches(model, s, p, via)]
        uses_only(p, actions) ==> !plan_reaches(model, s, p, via)
}

/// No plan over `actions` shorter than `n` steps reaches the goal from `s`
/// inside the model.
pub open spec fn no_shorter_plan(model: WorldModel, s: Seq<Seq<u8>>, actions: Seq<&str>, n: int) -> bool {
    forall|p: Seq<Seq<char>>, via: GoalVia|
        #![trigger plan_reaches(model, s, p, via)]
        uses_only(p, actions) && p.len() < n ==> !plan_reaches(model, s, p, via)
}

/// The position of the first action of `actions` whose text is `a`
/// (`actions.len()` when there is none).
pub open spec fn action_index(actions: Seq<&str>, a: Seq<char>) -> int
    decreases actions.len(),
{
    if actions.len() == 0 {
        0
    } else if actions[0]@ == a {
        0
    } else {
        1 + action_index(actions.drop_first(), a)
    }
}

/// The place of a plan in breadth-first order over `actions`: shorter plans
/// come first, and plans of one length are ordered step by step by
/// [`action_index`] (the plan read as a bijective numeral in base
/// `actions.len()`).
pub open spec fn bfs_rank(actions: Seq<&str>, plan: Seq<Seq<char>>) -> int
    decreases plan.len(),
{
    if plan.len() == 0 {
        0
    } else {
        actions.len() * bfs_rank(actions, plan.drop_last()) + action_index(actions, plan.last()) + 1
    }
}

/// No plan over `actions` that reaches the goal from `s` inside the model
/// comes before place `key` in breadth-first order.
pub open spec fn first_plan(model: WorldModel, s: Seq<Seq<u8>>, actions: Seq<&str>, key: int) -> bool {
    forall|p: Seq<Seq<char>>, via: GoalVia|
        #![trigger plan_reaches(model, s, p, via)]
        uses_only(p, actions) && plan_reaches(model, s, p, via) ==> key <= bfs_rank(actions, p)
}

proof fn lemma_action_index(actions: Seq<&str>, j: int)
    requires
        0 <= j < actions.len(),
    ensures
        0 <= action_index(actions, actions[j]@) <= j,
        actions[action_index(actions, actions[j]@)]@ == actions[j]@,
    decreases actions.len(),
{
    if actions[0]@ != actions[j]@ {
        let rest = actions.drop_first();
        assert(rest[j - 1] == actions[j]);
        lemma_action_index(rest, j - 1);
    }
}

proof fn lemma_mul_mono(n: int, x: int, y: int)
    by (nonlinear_arith)
    requires
        0 <= n,
        x <= y,
    ensures
        n * x <= n * y,
{
}

proof fn lemma_mul_grow(n: int, x: int)
    by (nonlinear_arith)
    requires
        1 <= n,
        0 <= x,
    ensures
        x <= n * x,
{
}

proof fn lemma_bfs_rank_nonneg(actions: Seq<&str>, plan: Seq<Seq<char>>)
    ensures
        bfs_rank(actions, plan) >= 0,
    decreases plan.len(),
{
    if plan.len() > 0 {
        lemma_bfs_rank_nonneg(actions, plan.drop_last());
        lemma_mul_mono(actions.len() as int, 0, bfs_rank(actions, plan.drop_last()));
        lemma_action_index_range(actions, plan.last());
    }
}

proof fn lemma_action_index_range(actions: Seq<&str>, a: Seq<char>)
    ensures
        0 <= action_index(actions, a) <= actions.len(),
    decreases actions.len(),
{
    if actions.len() > 0 && actions[0]@ != a {
        lemma_action_index_range(actions.drop_first(), a);
    }
}

/// The action texts of each plan in `paths`.
spec fn plan_views(paths: Seq<Vec<String>>) -> Seq<Seq<Seq<char>>> {
    paths.map_values(|p: Vec<String>| plan_view(p))
}

/// An action `a` out of seen state `i` whose plan comes before the plan of
/// state `h` followed by its `k`-th action is settled, when the states
/// before `h` are expanded over all the actions and state `h` over the
/// first `k`.
proof fn lemma_bfs_pair_settled(
    model: WorldModel,
    seen: Seq<Seq<Seq<u8>>>,
    lens: Seq<int>,
    paths: Seq<Seq<Seq<char>>>,
    actions: Seq<&str>,
    h: int,
    k: int,
    i: int,
    a: Seq<char>,
)
    requires
        paths.len() == seen.len(),
        lens.len() == seen.len(),
        forall|x: int, y: int|
            0 <= x < y < seen.len() ==> bfs_rank(actions, paths[x]) < bfs_rank(actions, paths[y]),
        0 <= h < seen.len(),
        0 <= k <= actions.len(),
        forall|x: int|
            0 <= x < h ==> bfs_expanded(
                model,
                seen,
                lens,
                actions,
                #[trigger] seen[x],
                lens[x] + 1,
                actions.len() as int,
            ),
        bfs_expanded(model, seen, lens, actions, seen[h], lens[h] + 1, k),
        0 <= i < seen.len(),
        listed(a, actions),
        actions.len() * bfs_rank(actions, paths[i]) + action_index(actions, a) < actions.len() * bfs_rank(
            actions,
            paths[h],
        ) + k,
    ensures
        bfs_settled(model, seen, lens, seen[i], lens[i] + 1, a),
{
    let j = choose|j: int| 0 <= j < actions.len() && a == actions[j]@;
    lemma_action_index(actions, j);
    let r = action_index(actions, a);
    assert(bfs_settled(model, seen, lens, seen[i], lens[i] + 1, actions[r]@) ==> bfs_settled(
        model,
        seen,
        lens,
        seen[i],
        lens[i] + 1,
        a,
    ));
    if i < h {
        assert(bfs_expanded(model, seen, lens, actions, seen[i], lens[i] + 1, actions.len() as int));
        assert(bfs_settled(model, seen, lens, seen[i], lens[i] + 1, actions[r]@));
    } else if i == h {
        assert(bfs_settled(model, seen, lens, seen[i], lens[i] + 1, actions[r]@));
    } else {
        assert(bfs_rank(actions, paths[h]) < bfs_rank(actions, paths[i]));
        let n = actions.len() as int;
        let x = bfs_rank(actions, paths[h]);
        lemma_mul_mono(n, x + 1, bfs_rank(actions, paths[i]));
        assert(n * (x + 1) == n * x + n) by (nonlinear_arith);
    }
}

/// Every quiet plan over `actions` that comes before the plan of state `h`
/// followed by its `k`-th action ends on a seen state.
proof fn lemma_bfs_front_reached(
    model: WorldModel,
    start: Seq<Seq<u8>>,
    seen: Seq<Seq<Seq<u8>>>,
    lens: Seq<int>,
    paths: Seq<Seq<Seq<char>>>,
    actions: Seq<&str>,
    h: int,
    k: int,
    q: Seq<Seq<char>>,
)
    requires
        paths.len() == seen.len(),
        lens.len() == seen.len(),
        seen.len() >= 1,
        seen[0] == start,
        forall|x: int, y: int|
            0 <= x < y < seen.len() ==> bfs_rank(actions, paths[x]) < bfs_rank(actions, paths[y]),
        forall|x: int, p: Seq<Seq<char>>|
            0 <= x < seen.len() && uses_only(p, actions) && quiet_run(model, start, p) == Some(seen[x])
                ==> bfs_rank(actions, #[trigger] paths[x]) <= #[trigger] bfs_rank(actions, p),
        0 <= h < seen.len(),
        0 <= k <= actions.len(),
        forall|x: int|
            0 <= x < h ==> bfs_expanded(
                model,
                seen,
                lens,
                actions,
                #[trigger] seen[x],
                lens[x] + 1,
                actions.len() as int,
            ),
        bfs_expanded(model, seen, lens, actions, seen[h], lens[h] + 1, k),
        uses_only(q, actions),
        quiet_run(model, start, q) is Some,
        bfs_rank(actions, q) < actions.len() * bfs_rank(actions, paths[h]) + k + 1,
    ensures
        exists|i: int| 0 <= i < seen.len() && #[trigger] seen[i] == quiet_run(model, start, q).unwrap(),
    decreases q.len(),
{
    if q.len() == 0 {
        assert(seen[0] == start);
    } else {
        let q1 = q.drop_last();
        let a = q.last();
        assert forall|t: int| 0 <= t < q1.len() implies listed(#[trigger] q1[t], actions) by {
            assert(q1[t] == q[t]);
        }
        assert(listed(q[q.len() - 1], actions));
        let n = actions.len() as int;
        lemma_bfs_rank_nonneg(actions, q1);
        lemma_mul_grow(n, bfs_rank(actions, q1));
        lemma_action_index_range(actions, a);
        lemma_bfs_front_reached(model, start, seen, lens, paths, actions, h, k, q1);
        let t = quiet_run(model, start, q1).unwrap();
        let i = choose|i: int| 0 <= i < seen.len() && #[trigger] seen[i] == t;
        assert(bfs_rank(actions, paths[i]) <= bfs_rank(actions, q1));
        lemma_mul_mono(n, bfs_rank(actions, paths[i]), bfs_rank(actions, q1));
        lemma_bfs_pair_settled(model, seen, lens, paths, actions, h, k, i, a);
        let o = model.outcome(t, a);
        assert(quiet(model, o));
        let i2 = choose|i2: int| 0 <= i2 < seen.len() && #[trigger] seen[i2] == o.grid && lens[i2] <= lens[i] + 1;
    }
}

/// No plan over `actions` that reaches the goal comes before the plan of
/// state `h` followed by its `k`-th action, under the conditions of
/// [`lemma_bfs_front_reached`] and when the start is no goal state.
proof fn lemma_bfs_goal_front(
    model: WorldModel,
    start: Seq<Seq<u8>>,
    seen: Seq<Seq<Seq<u8>>>,
    lens: Seq<int>,
    paths: Seq<Seq<Seq<char>>>,
    actions: Seq<&str>,
    h: int,
    k: int,
    q: Seq<Seq<char>>,
    via: GoalVia,
)
    requires
        paths.len() == seen.len(),
        lens.len() == seen.len(),
        seen.len() >= 1,
        seen[0] == start,
        !model.goal(start),
        forall|x: int, y: int|
            0 <= x < y < seen.len() ==> bfs_rank(actions, paths[x]) < bfs_rank(actions, paths[y]),
        forall|x: int, p: Seq<Seq<char>>|
            0 <= x < seen.len() && uses_only(p, actions) && quiet_run(model, start, p) == Some(seen[x])
                ==> bfs_rank(actions, #[trigger] paths[x]) <= #[trigger] bfs_rank(actions, p),
        0 <= h < seen.len(),
        0 <= k <= actions.len(),
        forall|x: int|
            0 <= x < h ==> bfs_expanded(
                model,
                seen,
                lens,
                actions,
                #[trigger] seen[x],
                lens[x] + 1,
                actions.len() as int,
            ),
        bfs_expanded(model, seen, lens, actions, seen[h], lens[h] + 1, k),
        uses_only(q, actions),
        plan_reaches(model, start, q, via),
    ensures
        actions.len() * bfs_rank(actions, paths[h]) + k + 1 <= bfs_rank(actions, q),
{
    if bfs_rank(actions, q) < actions.len() * bfs_rank(actions, paths[h]) + k + 1 {
        let q1 = q.drop_last();
        let a = q.last();
        assert forall|t: int| 0 <= t < q1.len() implies listed(#[trigger] q1[t], actions) by {
            assert(q1[t] == q[t]);
        }
        assert(listed(q[q.len() - 1], actions));
        let n = actions.len() as int;
        lemma_bfs_rank_nonneg(actions, q1);
        lemma_mul_grow(n, bfs_rank(actions, q1));
        lemma_action_index_range(actions, a);
        lemma_bfs_front_reached(model, start, seen, lens, paths, actions, h, k, q1);
        let t = quiet_run(model, start, q1).unwrap();
        let i = choose|i: int| 0 <= i < seen.len() && #[trigger] seen[i] == t;
        assert(bfs_rank(actions, paths[i]) <= bfs_rank(actions, q1));
        lemma_mul_mono(n, bfs_rank(actions, paths[i]), bfs_rank(actions, q1));
        lemma_bfs_pair_settled(model, seen, lens, paths, actions, h, k, i, a);
    }
}

proof fn lemma_bfs_grow(
    model: WorldModel,
    seen: Seq<Seq<Seq<u8>>>,
    lens: Seq<int>,
    more: Seq<Seq<Seq<u8>>>,
    more_lens: Seq<int>,
    actions: Seq<&str>,
    s: Seq<Seq<u8>>,
    bound: int,
    n: int,
)
    requires
        bfs_expanded(model, seen, lens, actions, s, bound, n),
        seen.len() <= more.len(),
        lens.len() == seen.len(),
        more_lens.len() == more.len(),
        forall|k: int| 0 <= k < seen.len() ==> #[trigger] more[k] == seen[k] && more_lens[k] == lens[k],
    ensures
        bfs_expanded(model, more, more_lens, actions, s, bound, n),
{
    assert forall|j: int| 0 <= j < n implies #[trigger] bfs_settled(
        model,
        more,
        more_lens,
        s,
        bound,
        actions[j]@,
    ) by {
        assert(bfs_settled(model, seen, lens, s, bound, actions[j]@));
        let o = model.outcome(s, actions[j]@);
        if !o.dead {
            let k = choose|k: int| 0 <= k < seen.len() && #[trigger] seen[k] == o.grid && lens[k] <= bound;
            assert(more[k] == seen[k]);
        }
    }
}

proof fn lemma_uses_only_prefix(p: Seq<Seq<char>>, actions: Seq<&str>)
    requires
        uses_only(p, actions),
        p.len() > 0,
    ensures
        uses_only(p.drop_last(), actions),
{
    let q = p.drop_last();
    assert forall|k: int| 0 <= k < q.len() implies listed(#[trigger] q[k], actions) by {
        assert(q[k] == p[k]);
    }
}

/// Following a plan over `actions` quietly from the start reaches, after
/// `p.len()` steps, a state seen within that many steps, as long as the
/// states seen within fewer steps than `limit` are expanded.
proof fn lemma_run_reached(
    model: WorldModel,
    seen: Seq<Seq<Seq<u8>>>,
    lens: Seq<int>,
    actions: Seq<&str>,
    s0: Seq<Seq<u8>>,
    p: Seq<Seq<char>>,
    limit: int,
)
    requires
        seen.len() >= 1,
        lens.len() == seen.len(),
        seen[0] == s0,
        lens[0] == 0,
        bfs_explored(model, seen, lens, actions, limit),
        uses_only(p, actions),
        p.len() <= limit,
    ensures
        quiet_run(model, s0, p) matches Some(t) ==> reached_within(seen, lens, t, p.len() as int),
    decreases p.len(),
{
    if p.len() == 0 {
        assert(seen[0] == s0);
    } else {
        let q = p.drop_last();
        lemma_uses_only_prefix(p, actions);
        lemma_run_reached(model, seen, lens, actions, s0, q, limit);
        match quiet_run(model, s0, q) {
            None => {},
            Some(t) => {
                let k = choose|k: int| 0 <= k < seen.len() && #[trigger] seen[k] == t && lens[k] <= q.len();
                assert(listed(p[p.len() - 1], actions));
                let j = choose|j: int| 0 <= j < actions.len() && p[p.len() - 1] == actions[j]@;
                assert(bfs_expanded(model, seen, lens, actions, seen[k], lens[k] + 1, actions.len() as int));
                assert(bfs_settled(model, seen, lens, seen[k], lens[k] + 1, actions[j]@));
                let o = model.outcome(t, p.last());
                if quiet(model, o) {
                    let k2 = choose|k2: int| 0 <= k2 < seen.len() && #[trigger] seen[k2] == o.grid && lens[k2] <= lens[k] + 1;
                    assert(lens[k2] <= p.len());
                }
            },
        }
    }
}

/// No plan over `actions` of at most `limit` steps reaches the goal, when
/// the start is no goal and the states seen within fewer steps than
/// `limit` are expanded.
proof fn lemma_no_plan_within(
    model: WorldModel,
    seen: Seq<Seq<Seq<u8>>>,
    lens: Seq<int>,
    actions: Seq<&str>,
    s0: Seq<Seq<u8>>,
    p: Seq<Seq<char>>,
    via: GoalVia,
    limit: int,
)
    requires
        seen.len() >= 1,
        lens.len() == seen.len(),
        seen[0] == s0,
        lens[0] == 0,
        !model.goal(s0),
        bfs_explored(model, seen, lens, actions, limit),
        uses_only(p, actions),
        p.len() <= limit,
    ensures
        !plan_reaches(model, s0, p, via),
{
    if p.len() > 0 {
        let q = p.drop_last();
        lemma_uses_only_prefix(p, actions);
        lemma_run_reached(model, seen, lens, actions, s0, q, limit);
        match quiet_run(model, s0, q) {
            None => {},
            Some(t) => {
                let k = choose|k: int| 0 <= k < seen.len() && #[trigger] seen[k] == t && lens[k] <= q.len();
                assert(listed(p[p.len() - 1], actions));
                let j = choose|j: int| 0 <= j < actions.len() && p[p.len() - 1] == actions[j]@;
                assert(bfs_expanded(model, seen, lens, actions, seen[k], lens[k] + 1, actions.len() as int));
                assert(bfs_settled(model, seen, lens, seen[k], lens[k] + 1, actions[j]@));
            },
        }
    }
}

/// Breadth-first search in the model from `start` over `actions`,
/// expanding at most `max_nodes` states. A plan found is a shortest one;
/// when none is found, the states expanded are all the states reachable
/// quietly or the budget was spent on them.
pub fn run_bfs(model: &WorldModel, start: &Grid, actions: &[&str], max_nodes: usize) -> (r: BfsReport)
    ensures
        r.plan is Some <==> r.goal_via is Some,
        r.expanded <= max_nodes,
        r.distinct >= 1,
        model.goal_rule.known() && model.goal(board(start)) ==> (r.plan matches Some(p) && p.len() == 0)
            && r.expanded == 0 && r.distinct == 1 && r.goal_via == Some(GoalVia::IsGoal),
        r.plan matches Some(p) ==> uses_only(plan_view(p), actions@),
        model.known() ==> (r.plan matches Some(p) ==> plan_reaches(
            *model,
            board(start),
            plan_view(p),
            r.goal_via.unwrap(),
        ) && no_shorter_plan(*model, board(start), actions@, p@.len() as int) && first_plan(
            *model,
            board(start),
            actions@,
            bfs_rank(actions@, plan_view(p)),
        )),
        model.known() && r.plan is None ==> searched(
            *model,
            board(start),
            actions@,
            r.expanded as int,
            r.distinct as int,
            max_nodes as int,
        ),
        model.known() && r.plan is Some && r.expanded > 0 ==> exists|seen: Seq<Seq<Seq<u8>>>, lens: Seq<int>|
            #![trigger bfs_frontier(*model, board(start), actions@, seen, lens, r.expanded - 1)]
            bfs_frontier(*model, board(start), actions@, seen, lens, r.expanded - 1) && seen.len()
                == r.distinct,
        model.known() && r.plan is None && r.expanded < max_nodes ==> unreachable_goal(
            *model,
            board(start),
            actions@,
        ),
{
    if model.is_goal(start) {
        let plan: Vec<String> = Vec::new();
        assert(plan_view(plan) =~= Seq::<Seq<char>>::empty());
        proof {
            assert forall|p: Seq<Seq<char>>, via: GoalVia|
                uses_only(p, actions@) && plan_reaches(*model, board(start), p, via) implies bfs_rank(
                actions@,
                plan_view(plan),
            ) <= bfs_rank(actions@, p) by {
                lemma_bfs_rank_nonneg(actions@, p);
            }
        }
        return BfsReport { plan: Some(plan), expanded: 0, distinct: 1, goal_via: Some(GoalVia::IsGoal) };
    }
    let ghost s0 = board(start);
    let mut states: Vec<Grid> = Vec::new();
    let mut paths: Vec<Vec<String>> = Vec::new();
    states.push(copy_grid(start));
    let empty: Vec<String> = Vec::new();
    assert(plan_view(empty) =~= Seq::<Seq<char>>::empty());
    paths.push(empty);
    let ghost mut seen: Seq<Seq<Seq<u8>>> = seq![s0];
    let ghost mut lens: Seq<int> = seq![0int];
    let mut head: usize = 0;
    let mut expanded: usize = 0;
    proof {
        assert(plan_views(paths@)[0] =~= Seq::<Seq<char>>::empty());
        assert forall|i: int, p: Seq<Seq<char>>|
            0 <= i < seen.len() && uses_only(p, actions@) && quiet_run(*model, s0, p) == Some(seen[i]) implies bfs_rank(
            actions@,
            #[trigger] plan_views(paths@)[i],
        ) <= #[trigger] bfs_rank(actions@, p) by {
            lemma_bfs_rank_nonneg(actions@, p);
        }
    }
    while head < states.len()
        invariant
            states.len() == paths.len(),
            seen.len() == states.len(),
            lens.len() == states.len(),
            states.len() >= 1,
            head <= states.len(),
            expanded == head,
            expanded <= max_nodes,
            s0 == board(start),
            seen[0] == s0,
            lens[0] == 0,
            forall|k: int| 0 <= k < seen.len() ==> #[trigger] seen[k] == board(&states@[k]),
            forall|i: int, j: int| 0 <= i < j < seen.len() ==> seen[i] != seen[j],
            forall|i: int, j: int| 0 <= i <= j < lens.len() ==> lens[i] <= lens[j],
            head >= 1 ==> lens[lens.len() - 1] <= lens[head - 1] + 1,
            head == 0 ==> lens.len() == 1,
            model.goal_rule.known() ==> !model.goal(s0),
            forall|k: int|
                0 <= k < paths.len() ==> uses_only(plan_view(#[trigger] paths[k]), actions@)
                    && plan_view(paths[k]).len() == lens[k],
            model.known() ==> forall|k: int|
                0 <= k < states.len() ==> quiet_run(*model, s0, plan_view(#[trigger] paths[k])) == Some(
                    board(&states[k]),
                ),
            model.known() ==> forall|k: int|
                0 <= k < head ==> bfs_expanded(
                    *model,
                    seen,
                    lens,
                    actions@,
                    #[trigger] seen[k],
                    lens[k] + 1,
                    actions@.len() as int,
                ),
            model.known() ==> forall|i: int, j: int|
                0 <= i < j < seen.len() ==> bfs_rank(actions@, plan_views(paths@)[i]) < bfs_rank(
                    actions@,
                    plan_views(paths@)[j],
                ),
            model.known() ==> forall|i: int, p: Seq<Seq<char>>|
                0 <= i < seen.len() && uses_only(p, actions@) && quiet_run(*model, s0, p) == Some(seen[i])
                    ==> bfs_rank(actions@, #[trigger] plan_views(paths@)[i]) <= #[trigger] bfs_rank(actions@, p),
            model.known() && head >= 1 && actions@.len() > 0 ==> forall|i: int|
                0 <= i < seen.len() ==> bfs_rank(actions@, #[trigger] plan_views(paths@)[i]) <= actions@.len()
                    * bfs_rank(actions@, plan_views(paths@)[head - 1]) + actions@.len(),
        ensures
            head >= states.len() || expanded >= max_nodes,
        decreases max_nodes - expanded,
    {
        if expanded >= max_nodes {
            break;
        }
        let idx = head;
        proof {
            if head >= 1 {
                assert(lens[head - 1] <= lens[head as int]);
            }
        }
        let ghost d = lens[head as int];
        let ghost cur = plan_views(paths@)[idx as int];
        proof {
            if model.known() && actions@.len() > 0 {
                let n = actions@.len() as int;
                let pvs = plan_views(paths@);
                lemma_bfs_rank_nonneg(actions@, cur);
                lemma_mul_grow(n, bfs_rank(actions@, cur));
                assert forall|i: int| 0 <= i < seen.len() implies bfs_rank(actions@, #[trigger] pvs[i]) < n
                    * bfs_rank(actions@, cur) + 1 by {
                    if i < idx {
                        assert(bfs_rank(actions@, pvs[i]) < bfs_rank(actions@, pvs[idx as int]));
                    } else if i > idx {
                        let x = bfs_rank(actions@, pvs[idx - 1]);
                        assert(x < bfs_rank(actions@, cur));
                        lemma_mul_mono(n, x + 1, bfs_rank(actions@, cur));
                        assert(n * (x + 1) == n * x + n) by (nonlinear_arith);
                    }
                }
            }
        }
        head = head + 1;
        expanded = expanded + 1;
        let state = copy_grid(&states[idx]);
        let path = copy_plan(&paths[idx]);
        let mut j: usize = 0;
        while j < actions.len()
            invariant
                states.len() == paths.len(),
                seen.len() == states.len(),
                lens.len() == states.len(),
                states.len() >= 1,
                1 <= head <= states.len(),
                expanded == head,
                expanded <= max_nodes,
                s0 == board(start),
                seen[0] == s0,
                lens[0] == 0,
                forall|k: int| 0 <= k < seen.len() ==> #[trigger] seen[k] == board(&states@[k]),
                forall|i: int, j: int| 0 <= i < j < seen.len() ==> seen[i] != seen[j],
                forall|i: int, j: int| 0 <= i <= j < lens.len() ==> lens[i] <= lens[j],
                lens[lens.len() - 1] <= d + 1,
                lens[head - 1] == d,
                seen[head - 1] == board(&state),
                model.goal_rule.known() ==> !model.goal(s0),
                uses_only(plan_view(path), actions@),
                plan_view(path).len() == d,
                forall|k: int|
                    0 <= k < paths.len() ==> uses_only(plan_view(#[trigger] paths[k]), actions@)
                        && plan_view(paths[k]).len() == lens[k],
                model.known() ==> quiet_run(*model, s0, plan_view(path)) == Some(board(&state)),
                model.known() ==> forall|k: int|
                    0 <= k < states.len() ==> quiet_run(*model, s0, plan_view(#[trigger] paths[k]))
                        == Some(board(&states[k])),
                model.known() ==> forall|k: int|
                    0 <= k < head - 1 ==> bfs_expanded(
                        *model,
                        seen,
                        lens,
                        actions@,
                        #[trigger] seen[k],
                        lens[k] + 1,
                        actions@.len() as int,
                    ),
                model.known() ==> bfs_expanded(*model, seen, lens, actions@, board(&state), d + 1, j as int),
                j <= actions.len(),
                cur == plan_views(paths@)[head - 1],
                cur == plan_view(path),
                model.known() ==> forall|i: int, j: int|
                    0 <= i < j < seen.len() ==> bfs_rank(actions@, plan_views(paths@)[i]) < bfs_rank(
                        actions@,
                        plan_views(paths@)[j],
                    ),
                model.known() ==> forall|i: int, p: Seq<Seq<char>>|
                    0 <= i < seen.len() && uses_only(p, actions@) && quiet_run(*model, s0, p) == Some(seen[i])
                        ==> bfs_rank(actions@, #[trigger] plan_views(paths@)[i]) <= #[trigger] bfs_rank(actions@, p),
                model.known() && actions@.len() > 0 ==> forall|i: int|
                    0 <= i < seen.len() ==> bfs_rank(actions@, #[trigger] plan_views(paths@)[i]) < actions@.len()
                        * bfs_rank(actions@, cur) + j + 1,
            decreases actions.len() - j,
        {
            let a = actions[j];
            let pred = model.step(&state, a);
            let mut next = copy_plan(&path);
            next.push(owned(a));
            let ghost pv = plan_view(path);
            proof {
                assert(plan_view(next) =~= pv.push(a@));
                assert(plan_view(next).drop_last() =~= pv);
                lemma_action_index(actions@, j as int);
                assert(plan_view(next).last() == actions@[j as int]@);
                assert(bfs_rank(actions@, plan_view(next)) == actions@.len() * bfs_rank(actions@, cur)
                    + action_index(actions@, actions@[j as int]@) + 1);
                assert forall|k: int| 0 <= k < plan_view(next).len() implies listed(
                    #[trigger] plan_view(next)[k],
                    actions@,
                ) by {
                    if k == pv.len() {
                        assert(plan_view(next)[k] == actions@[j as int]@);
                    } else {
                        assert(plan_view(next)[k] == pv[k]);
                    }
                }
            }
            if !pred.dead {
                if pred.win || pred.level_up || model.is_goal(&pred.grid) {
                    proof {
                        if model.known() {
                            assert forall|p: Seq<Seq<char>>, via: GoalVia|
                                uses_only(p, actions@) && p.len() < plan_view(next).len() implies !plan_reaches(
                                *model,
                                s0,
                                p,
                                via,
                            ) by {
                                assert forall|i: int| 0 <= i < seen.len() && lens[i] < d implies bfs_expanded(
                                    *model,
                                    seen,
                                    lens,
                                    actions@,
                                    #[trigger] seen[i],
                                    lens[i] + 1,
                                    actions@.len() as int,
                                ) by {
                                    if i >= head - 1 {
                                        assert(lens[head - 1] <= lens[i]);
                                    }
                                }
                                lemma_no_plan_within(*model, seen, lens, actions@, s0, p, via, d);
                            }
                            assert forall|p: Seq<Seq<char>>, via: GoalVia|
                                uses_only(p, actions@) && plan_reaches(*model, s0, p, via) implies bfs_rank(
                                actions@,
                                plan_view(next),
                            ) <= bfs_rank(actions@, p) by {
                                lemma_bfs_goal_front(
                                    *model,
                                    s0,
                                    seen,
                                    lens,
                                    plan_views(paths@),
                                    actions@,
                                    head - 1,
                                    j as int,
                                    p,
                                    via,
                                );
                            }
                            assert forall|k: int| 0 <= k < seen.len() implies #[trigger] reached_by_plan(
                                *model,
                                s0,
                                actions@,
                                seen[k],
                                lens[k],
                            ) by {
                                assert(quiet_run(*model, s0, plan_view(paths@[k])) == Some(board(&states@[k])));
                                assert(uses_only(plan_view(paths@[k]), actions@));
                            }
                            assert(bfs_frontier(*model, s0, actions@, seen, lens, expanded - 1));
                        }
                    }
                    let via = if pred.win {
                        GoalVia::Win
                    } else if pred.level_up {
                        GoalVia::LevelUp
                    } else {
                        GoalVia::IsGoal
                    };
                    return BfsReport { plan: Some(next), expanded, distinct: states.len(), goal_via: Some(via) };
                }
                if !contains_grid(&states, &pred.grid) {
                    let ghost old_seen = seen;
                    let ghost old_lens = lens;
                    let ghost old_states = states@;
                    let ghost old_pvs = plan_views(paths@);
                    proof {
                        if model.known() {
                            let r = action_index(actions@, actions@[j as int]@);
                            if r < j {
                                assert(bfs_settled(*model, seen, lens, board(&state), d + 1, actions@[r]@));
                                let i = choose|i: int|
                                    0 <= i < seen.len() && #[trigger] seen[i] == pred@.grid && lens[i] <= d + 1;
                                assert(board(&states@[i]) == board(&pred.grid));
                            }
                            assert forall|p: Seq<Seq<char>>|
                                uses_only(p, actions@) && quiet_run(*model, s0, p) == Some(pred@.grid) implies bfs_rank(
                                actions@,
                                plan_view(next),
                            ) <= bfs_rank(actions@, p) by {
                                if bfs_rank(actions@, p) < bfs_rank(actions@, plan_view(next)) {
                                    lemma_bfs_front_reached(
                                        *model,
                                        s0,
                                        seen,
                                        lens,
                                        old_pvs,
                                        actions@,
                                        head - 1,
                                        j as int,
                                        p,
                                    );
                                    let i = choose|i: int| 0 <= i < seen.len() && #[trigger] seen[i] == pred@.grid;
                                    assert(board(&states@[i]) == board(&pred.grid));
                                }
                            }
                        }
                    }
                    states.push(pred.grid);
                    paths.push(next);
                    proof {
                        seen = seen.push(pred@.grid);
                        lens = lens.push(d + 1);
                        assert(plan_views(paths@) =~= old_pvs.push(plan_view(next)));
                        assert forall|k: int| 0 <= k < seen.len() implies #[trigger] seen[k] == board(&states@[k]) by {
                            if k < old_seen.len() {
                                assert(states@[k] == old_states[k]);
                            }
                        }
                        assert forall|i: int, j2: int| 0 <= i < j2 < seen.len() implies seen[i] != seen[j2] by {
                            if j2 == seen.len() - 1 {
                                assert(board(&states@[i]) == seen[i]);
                            }
                        }
                        assert forall|i: int, j2: int| 0 <= i <= j2 < lens.len() implies lens[i] <= lens[j2] by {
                            if j2 == lens.len() - 1 && i < j2 {
                                assert(old_lens[i] <= old_lens[old_lens.len() - 1]);
                            }
                        }
                        assert forall|k: int| 0 <= k < old_seen.len() implies #[trigger] seen[k] == old_seen[k]
                            && lens[k] == old_lens[k] by {}
                        if model.known() {
                            assert forall|k: int| 0 <= k < head - 1 implies bfs_expanded(
                                *model,
                                seen,
                                lens,
                                actions@,
                                #[trigger] seen[k],
                                lens[k] + 1,
                                actions@.len() as int,
                            ) by {
                                lemma_bfs_grow(
                                    *model,
                                    old_seen,
                                    old_lens,
                                    seen,
                                    lens,
                                    actions@,
                                    old_seen[k],
                                    old_lens[k] + 1,
                                    actions@.len() as int,
                                );
                            }
                            lemma_bfs_grow(*model, old_seen, old_lens, seen, lens, actions@, board(&state), d + 1, j as int);
                            assert(seen[seen.len() - 1] == pred@.grid);
                            assert(reached_within(seen, lens, pred@.grid, d + 1));
                        }
                    }
                } else {
                    proof {
                        let k = choose|k: int| 0 <= k < states.len() && #[trigger] board(&states[k]) == board(&pred.grid);
                        assert(seen[k] == board(&states@[k]));
                        assert(lens[k] <= lens[lens.len() - 1]);
                        assert(reached_within(seen, lens, pred@.grid, d + 1));
                    }
                }
            }
            proof {
                if model.known() {
                    assert(a@ == actions@[j as int]@);
                    assert(bfs_settled(*model, seen, lens, board(&state), d + 1, actions@[j as int]@));
                }
            }
            j = j + 1;
        }
        proof {
            if model.known() {
                assert forall|k: int| 0 <= k < head implies bfs_expanded(
                    *model,
                    seen,
                    lens,
                    actions@,
                    #[trigger] seen[k],
                    lens[k] + 1,
                    actions@.len() as int,
                ) by {
                    if k == head - 1 {
                        assert(seen[k] == board(&state));
                    }
                }
            }
        }
    }
    proof {
        if model.known() {
            assert forall|k: int| 0 <= k < seen.len() implies #[trigger] reached_by_plan(
                *model,
                s0,
                actions@,
                seen[k],
                lens[k],
            ) by {
                assert(quiet_run(*model, s0, plan_view(paths@[k])) == Some(board(&states@[k])));
                assert(uses_only(plan_view(paths@[k]), actions@));
            }
            assert(bfs_frontier(*model, board(start), actions@, seen, lens, expanded as int) && seen.len()
                == states.len() && (expanded == states.len() || expanded == max_nodes));
            assert(searched(
                *model,
                board(start),
                actions@,
                expanded as int,
                states.len() as int,
                max_nodes as int,
            ));
            if expanded < max_nodes {
                assert forall|p: Seq<Seq<char>>, via: GoalVia| uses_only(p, actions@) implies !plan_reaches(
                    *model,
                    s0,
                    p,
                    via,
                ) by {
                    let limit = p.len() as int;
                    assert forall|i: int| 0 <= i < seen.len() && lens[i] < limit implies bfs_expanded(
                        *model,
                        seen,
                        lens,
                        actions@,
                        #[trigger] seen[i],
                        lens[i] + 1,
                        actions@.len() as int,
                    ) by {}
                    lemma_no_plan_within(*model, seen, lens, actions@, s0, p, via, limit);
                }
            }
        }
    }
    BfsReport { plan: None, expanded, distinct: states.len(), goal_via: None }
}

} // verus!
