//! The two variants of the search over the same debris, and how their
//! outcomes relate.

use vstd::prelude::*;
use crate::debris::DebrisPiece;
use crate::lattice::{Lattice, Vec3};
use crate::occupancy::{build_occupancy, debris_field, lemma_presence_follows_counts, Field, Mode};
use crate::search::{
    is_route, is_walk, lemma_walk_ticks, moves, no_route, reachable_in, search, shortest, step, successor, Query,
    SearchState, Unreachable,
};

verus! {

/// The least number of moves from start to goal past the given debris, where
/// the agent never enters a cell that holds debris at the tick of its
/// arrival.
pub fn solve_part2(debris: &[DebrisPiece], lattice: &Lattice, start: Vec3, goal: Vec3, horizon: u32) -> (r: Result<
    u32,
    Unreachable,
>)
    requires
        lattice.wf(),
        horizon < usize::MAX,
    ensures
        match r {
            Ok(n) => shortest(
                debris_field(debris@, *lattice, horizon as int, Mode::Avoid),
                (Query { start, goal, horizon, mode: Mode::Avoid, resource_budget: None }),
                n as int,
            ),
            Err(_) => no_route(
                debris_field(debris@, *lattice, horizon as int, Mode::Avoid),
                (Query { start, goal, horizon, mode: Mode::Avoid, resource_budget: None }),
            ),
        },
{
    let index = build_occupancy(debris, lattice, horizon, Mode::Avoid);
    proof {
        index.lemma_shows_field(debris@, Mode::Avoid);
    }
    search(&index, start, goal, horizon, Mode::Avoid, None)
}

/// The least number of moves from start to goal past the given debris, where
/// each piece of debris in a cell that the agent enters costs one unit of
/// its budget, which it may use up but not exceed.
pub fn solve_part3(
    debris: &[DebrisPiece],
    lattice: &Lattice,
    start: Vec3,
    goal: Vec3,
    horizon: u32,
    budget: u64,
) -> (r: Result<u32, Unreachable>)
    requires
        lattice.wf(),
        horizon < usize::MAX,
    ensures
        match r {
            Ok(n) => shortest(
                debris_field(debris@, *lattice, horizon as int, Mode::Deplete),
                (Query { start, goal, horizon, mode: Mode::Deplete, resource_budget: Some(budget) }),
                n as int,
            ),
            Err(_) => no_route(
                debris_field(debris@, *lattice, horizon as int, Mode::Deplete),
                (Query { start, goal, horizon, mode: Mode::Deplete, resource_budget: Some(budget) }),
            ),
        },
{
    let index = build_occupancy(debris, lattice, horizon, Mode::Deplete);
    proof {
        index.lemma_shows_field(debris@, Mode::Deplete);
    }
    search(&index, start, goal, horizon, Mode::Deplete, Some(budget))
}

/// A walk with the resource of every node set to `left`.
pub open spec fn recast(walk: Seq<SearchState>, left: Option<u64>) -> Seq<SearchState> {
    Seq::new(walk.len(), |i: int| SearchState { position: walk[i].position, tick: walk[i].tick, resource: left })
}

/// The query that asks in `Deplete` mode, with the given budget, what `q`
/// asks.
pub open spec fn depleting(q: Query, budget: Option<u64>) -> Query {
    Query { start: q.start, goal: q.goal, horizon: q.horizon, mode: Mode::Deplete, resource_budget: budget }
}

/// The query that asks in `Avoid` mode what `q` asks.
pub open spec fn avoiding(q: Query) -> Query {
    Query { start: q.start, goal: q.goal, horizon: q.horizon, mode: Mode::Avoid, resource_budget: q.resource_budget }
}

/// A move that `Avoid` mode allows costs nothing in `Deplete` mode.
proof fn lemma_avoid_step_is_free(field: Field, q: Query, budget: Option<u64>, from: SearchState, to: SearchState)
    requires
        q.mode == Mode::Avoid,
        step(field, q, from, to),
    ensures
        to.resource == from.resource,
        step(
            field,
            depleting(q, budget),
            SearchState { position: from.position, tick: from.tick, resource: budget },
            SearchState { position: to.position, tick: to.tick, resource: budget },
        ),
{
    let k = choose|k: int| 0 <= k < 7 && successor(field, q, from, #[trigger] moves()[k]) == Some(to);
    let from2 = SearchState { position: from.position, tick: from.tick, resource: budget };
    let to2 = SearchState { position: to.position, tick: to.tick, resource: budget };
    assert(successor(field, depleting(q, budget), from2, moves()[k]) == Some(to2));
}

/// A move that `Deplete` mode allows with nothing left is one that `Avoid`
/// mode allows.
proof fn lemma_free_step_avoids(field: Field, q: Query, from: SearchState, to: SearchState)
    requires
        q.mode == Mode::Deplete,
        from.resource == Some(0u64),
        step(field, q, from, to),
    ensures
        to.resource == Some(0u64),
        step(
            field,
            avoiding(q),
            SearchState { position: from.position, tick: from.tick, resource: None },
            SearchState { position: to.position, tick: to.tick, resource: None },
        ),
{
    let k = choose|k: int| 0 <= k < 7 && successor(field, q, from, #[trigger] moves()[k]) == Some(to);
    let from2 = SearchState { position: from.position, tick: from.tick, resource: None };
    let to2 = SearchState { position: to.position, tick: to.tick, resource: None };
    assert(successor(field, avoiding(q), from2, moves()[k]) == Some(to2));
}

/// Along a walk of `Avoid` mode the resource stays what it was.
proof fn lemma_avoid_keeps_resource(field: Field, q: Query, walk: Seq<SearchState>, i: int)
    requires
        q.mode == Mode::Avoid,
        is_walk(field, q, walk),
        0 <= i < walk.len(),
    ensures
        walk[i].resource == walk[0].resource,
    decreases i,
{
    if i > 0 {
        lemma_avoid_keeps_resource(field, q, walk, i - 1);
        assert(step(field, q, walk[i - 1], walk[i]));
        lemma_avoid_step_is_free(field, q, None, walk[i - 1], walk[i]);
    }
}

/// Along a walk of `Deplete` mode that starts with nothing, nothing is left
/// at every node.
proof fn lemma_nothing_stays_nothing(field: Field, q: Query, walk: Seq<SearchState>, i: int)
    requires
        q.mode == Mode::Deplete,
        is_walk(field, q, walk),
        walk[0].resource == Some(0u64),
        0 <= i < walk.len(),
    ensures
        walk[i].resource == Some(0u64),
    decreases i,
{
    if i > 0 {
        lemma_nothing_stays_nothing(field, q, walk, i - 1);
        assert(step(field, q, walk[i - 1], walk[i]));
        lemma_free_step_avoids(field, q, walk[i - 1], walk[i]);
    }
}

/// Whatever `Avoid` mode reaches, `Deplete` mode reaches in as many moves,
/// with any budget or none: a route past all debris costs nothing.
pub proof fn lemma_deplete_reaches_what_avoid_reaches(field: Field, q: Query, budget: Option<u64>, n: int)
    requires
        q.mode == Mode::Avoid,
        reachable_in(field, q, n),
    ensures
        reachable_in(field, depleting(q, budget), n),
{
    let route = choose|route: Seq<SearchState>| #[trigger] is_route(field, q, route) && route.len() == n + 1;
    let q2 = depleting(q, budget);
    let paid = recast(route, budget);
    assert forall|i: int| 0 <= i < paid.len() - 1 implies step(field, q2, #[trigger] paid[i], paid[i + 1]) by {
        assert(step(field, q, route[i], route[i + 1]));
        lemma_avoid_step_is_free(field, q, budget, route[i], route[i + 1]);
    }
    assert(paid[0] == q2.initial());
    assert(is_route(field, q2, paid) && paid.len() == n + 1);
}

/// With a budget of nothing `Deplete` mode reaches exactly what `Avoid` mode
/// reaches, in as many moves: to afford no debris is to avoid it.
pub proof fn lemma_zero_budget_is_avoidance(field: Field, q: Query, n: int)
    requires
        q.mode == Mode::Avoid,
    ensures
        reachable_in(field, q, n) <==> reachable_in(field, depleting(q, Some(0u64)), n),
        shortest(field, q, n) <==> shortest(field, depleting(q, Some(0u64)), n),
        no_route(field, q) <==> no_route(field, depleting(q, Some(0u64))),
{
    let q2 = depleting(q, Some(0u64));
    assert forall|m: int| reachable_in(field, q, m) <==> reachable_in(field, q2, m) by {
        if reachable_in(field, q, m) {
            lemma_deplete_reaches_what_avoid_reaches(field, q, Some(0u64), m);
        }
        if reachable_in(field, q2, m) {
            let route = choose|route: Seq<SearchState>| #[trigger] is_route(field, q2, route) && route.len() == m + 1;
            let kept = recast(route, None);
            assert forall|i: int| 0 <= i < kept.len() - 1 implies step(field, avoiding(q2), #[trigger] kept[i], kept[i + 1]) by {
                lemma_nothing_stays_nothing(field, q2, route, i);
                assert(step(field, q2, route[i], route[i + 1]));
                lemma_free_step_avoids(field, q2, route[i], route[i + 1]);
            }
            assert(kept[0] == avoiding(q2).initial());
            assert(is_route(field, avoiding(q2), kept) && kept.len() == m + 1);
            lemma_same_question(field, avoiding(q2), q, m);
        }
    }
}

/// In `Avoid` mode the budget is not read: two queries that differ in it
/// alone have the same routes.
proof fn lemma_same_question(field: Field, a: Query, b: Query, n: int)
    requires
        a.mode == Mode::Avoid,
        b.mode == Mode::Avoid,
        a.start == b.start,
        a.goal == b.goal,
        a.horizon == b.horizon,
        reachable_in(field, a, n),
    ensures
        reachable_in(field, b, n),
{
    let route = choose|route: Seq<SearchState>| #[trigger] is_route(field, a, route) && route.len() == n + 1;
    assert forall|i: int| 0 <= i < route.len() - 1 implies step(field, b, #[trigger] route[i], route[i + 1]) by {
        assert(step(field, a, route[i], route[i + 1]));
        let k = choose|k: int| 0 <= k < 7 && successor(field, a, route[i], #[trigger] moves()[k]) == Some(route[i + 1]);
        assert(successor(field, b, route[i], moves()[k]) == Some(route[i + 1]));
    }
    assert(is_route(field, b, route));
}

/// A move that `Deplete` mode allows without a budget is allowed in every
/// field of the same lattice, and in `Avoid` mode where the cell entered
/// holds no debris.
proof fn lemma_unlimited_step(a: Field, b: Field, q: Query, q2: Query, from: SearchState, to: SearchState)
    requires
        a.lattice == b.lattice,
        q.mode == Mode::Deplete,
        q2.start == q.start,
        q2.goal == q.goal,
        q2.horizon == q.horizon,
        from.resource is None,
        step(a, q, from, to),
        q2.mode == Mode::Deplete || to.position == q.start || b.count(to.tick as int, to.position) == 0,
    ensures
        to.resource is None,
        step(b, q2, from, to),
{
    let k = choose|k: int| 0 <= k < 7 && successor(a, q, from, #[trigger] moves()[k]) == Some(to);
    assert(successor(b, q2, from, moves()[k]) == Some(to));
}

/// Along a walk of `Deplete` mode without a budget the resource stays
/// uncounted.
proof fn lemma_unlimited_stays(field: Field, q: Query, walk: Seq<SearchState>, i: int)
    requires
        q.mode == Mode::Deplete,
        is_walk(field, q, walk),
        walk[0].resource is None,
        0 <= i < walk.len(),
    ensures
        walk[i].resource is None,
    decreases i,
{
    if i > 0 {
        lemma_unlimited_stays(field, q, walk, i - 1);
        assert(step(field, q, walk[i - 1], walk[i]));
        lemma_unlimited_step(field, field, q, q, walk[i - 1], walk[i]);
    }
}

/// Without a budget `Deplete` mode reads no debris: what it reaches in one
/// field it reaches, in as many moves, in every field of the same lattice.
pub proof fn lemma_no_budget_reads_no_debris(a: Field, b: Field, q: Query, n: int)
    requires
        a.lattice == b.lattice,
        q.mode == Mode::Deplete,
        q.resource_budget is None,
        reachable_in(a, q, n),
    ensures
        reachable_in(b, q, n),
{
    let route = choose|route: Seq<SearchState>| #[trigger] is_route(a, q, route) && route.len() == n + 1;
    assert forall|i: int| 0 <= i < route.len() - 1 implies step(b, q, #[trigger] route[i], route[i + 1]) by {
        lemma_unlimited_stays(a, q, route, i);
        assert(step(a, q, route[i], route[i + 1]));
        lemma_unlimited_step(a, b, q, q, route[i], route[i + 1]);
    }
    assert(is_route(b, q, route));
}

/// Whether a field records no debris at any tick up to the horizon.
pub open spec fn is_clear(field: Field, horizon: int) -> bool {
    forall|t: int, c: Vec3| 0 <= t <= horizon && field.lattice.contains(c) ==> #[trigger] field.count(t, c) == 0
}

/// Without a budget `Deplete` mode reaches, in whatever field, exactly what
/// `Avoid` mode reaches in a field of the same lattice that records no
/// debris: where debris bars the way of `Avoid` mode, the two differ.
pub proof fn lemma_no_budget_is_avoidance_without_debris(field: Field, clear: Field, q: Query, n: int)
    requires
        field.lattice == clear.lattice,
        field.lattice.wf(),
        is_clear(clear, q.horizon as int),
        q.mode == Mode::Avoid,
    ensures
        reachable_in(clear, q, n) <==> reachable_in(field, depleting(q, None), n),
{
    let q2 = depleting(q, None);
    if reachable_in(clear, q, n) {
        lemma_deplete_reaches_what_avoid_reaches(clear, q, None, n);
        lemma_no_budget_reads_no_debris(clear, field, q2, n);
    }
    if reachable_in(field, q2, n) {
        lemma_no_budget_reads_no_debris(field, clear, q2, n);
        let route = choose|route: Seq<SearchState>| #[trigger] is_route(clear, q2, route) && route.len() == n + 1;
        assert forall|i: int| 0 <= i < route.len() - 1 implies step(clear, q, #[trigger] route[i], route[i + 1]) by {
            lemma_unlimited_stays(clear, q2, route, i);
            assert(step(clear, q2, route[i], route[i + 1]));
            crate::search::lemma_walk_ticks(clear, q2, route, i + 1);
            assert(clear.count(route[i + 1].tick as int, route[i + 1].position) == 0);
            lemma_unlimited_step(clear, clear, q2, q, route[i], route[i + 1]);
        }
        assert(route[0] == q.initial());
        assert(is_route(clear, q, route));
    }
}

/// Where some route takes `n` moves, some number of moves up to `n` is the
/// least that any route takes.
pub proof fn lemma_least_exists(field: Field, q: Query, n: int) -> (m: int)
    requires
        reachable_in(field, q, n),
    ensures
        0 <= m <= n,
        shortest(field, q, m),
    decreases n,
{
    let route = choose|route: Seq<SearchState>| #[trigger] is_route(field, q, route) && route.len() == n + 1;
    assert(n >= 0);
    if forall|k: int| k < n ==> !#[trigger] reachable_in(field, q, k) {
        n
    } else {
        let k = choose|k: int| k < n && #[trigger] reachable_in(field, q, k);
        let short = choose|short: Seq<SearchState>| #[trigger] is_route(field, q, short) && short.len() == k + 1;
        assert(k >= 0);
        lemma_least_exists(field, q, k)
    }
}

/// In `Avoid` mode a move is allowed in the field of presence exactly where
/// it is allowed in the field of counts: the mode reads only whether a cell
/// holds debris.
proof fn lemma_avoid_step_reads_presence(
    debris: Seq<DebrisPiece>,
    lattice: Lattice,
    horizon: int,
    q: Query,
    from: SearchState,
    to: SearchState,
)
    requires
        lattice.wf(),
        q.mode == Mode::Avoid,
        q.horizon <= horizon,
    ensures
        step(debris_field(debris, lattice, horizon, Mode::Avoid), q, from, to) <==> step(
            debris_field(debris, lattice, horizon, Mode::Deplete),
            q,
            from,
            to,
        ),
{
    let seen = debris_field(debris, lattice, horizon, Mode::Avoid);
    let counted = debris_field(debris, lattice, horizon, Mode::Deplete);
    assert forall|k: int| 0 <= k < 7 implies successor(seen, q, from, #[trigger] moves()[k]) == successor(
        counted,
        q,
        from,
        moves()[k],
    ) by {
        let d = moves()[k];
        let x = from.position.x + d.0;
        let y = from.position.y + d.1;
        let z = from.position.z + d.2;
        if from.tick < q.horizon && 0 <= x < lattice.x_size && 0 <= y < lattice.y_size && 0 <= z < lattice.z_size {
            let dest = Vec3 { x: x as i16, y: y as i16, z: z as i16 };
            lemma_presence_follows_counts(debris, lattice, horizon, from.tick + 1, dest);
            crate::occupancy::lemma_occupied_iff_counted(debris, lattice, from.tick + 1, dest);
        }
    }
    if step(seen, q, from, to) {
        let k = choose|k: int| 0 <= k < 7 && successor(seen, q, from, #[trigger] moves()[k]) == Some(to);
        assert(successor(counted, q, from, moves()[k]) == Some(to));
    }
    if step(counted, q, from, to) {
        let k = choose|k: int| 0 <= k < 7 && successor(counted, q, from, #[trigger] moves()[k]) == Some(to);
        assert(successor(seen, q, from, moves()[k]) == Some(to));
    }
}

/// In `Avoid` mode the search reaches the same in the field of presence and
/// in the field of counts of the same debris.
pub proof fn lemma_avoid_reads_presence(
    debris: Seq<DebrisPiece>,
    lattice: Lattice,
    horizon: int,
    q: Query,
    n: int,
)
    requires
        lattice.wf(),
        q.mode == Mode::Avoid,
        q.horizon <= horizon,
    ensures
        reachable_in(debris_field(debris, lattice, horizon, Mode::Avoid), q, n) <==> reachable_in(
            debris_field(debris, lattice, horizon, Mode::Deplete),
            q,
            n,
        ),
{
    let seen = debris_field(debris, lattice, horizon, Mode::Avoid);
    let counted = debris_field(debris, lattice, horizon, Mode::Deplete);
    if reachable_in(seen, q, n) {
        let route = choose|route: Seq<SearchState>| #[trigger] is_route(seen, q, route) && route.len() == n + 1;
        assert forall|i: int| 0 <= i < route.len() - 1 implies step(counted, q, #[trigger] route[i], route[i + 1]) by {
            assert(step(seen, q, route[i], route[i + 1]));
            lemma_avoid_step_reads_presence(debris, lattice, horizon, q, route[i], route[i + 1]);
        }
        assert(is_route(counted, q, route));
    }
    if reachable_in(counted, q, n) {
        let route = choose|route: Seq<SearchState>| #[trigger] is_route(counted, q, route) && route.len() == n + 1;
        assert forall|i: int| 0 <= i < route.len() - 1 implies step(seen, q, #[trigger] route[i], route[i + 1]) by {
            assert(step(counted, q, route[i], route[i + 1]));
            lemma_avoid_step_reads_presence(debris, lattice, horizon, q, route[i], route[i + 1]);
        }
        assert(is_route(seen, q, route));
    }
}

/// Where the search that avoids debris finds a route, the search that pays
/// for debris finds one that is no longer, past the same debris and with
/// any budget or none: a route past all debris costs nothing. The first
/// reads the field of presence, the second the field of counts.
pub proof fn lemma_paying_is_no_longer(
    debris: Seq<DebrisPiece>,
    lattice: Lattice,
    start: Vec3,
    goal: Vec3,
    horizon: u32,
    budget: Option<u64>,
    la: int,
) -> (lb: int)
    requires
        lattice.wf(),
        shortest(
            debris_field(debris, lattice, horizon as int, Mode::Avoid),
            (Query { start, goal, horizon, mode: Mode::Avoid, resource_budget: None }),
            la,
        ),
    ensures
        0 <= lb <= la,
        shortest(
            debris_field(debris, lattice, horizon as int, Mode::Deplete),
            (Query { start, goal, horizon, mode: Mode::Deplete, resource_budget: budget }),
            lb,
        ),
        !no_route(
            debris_field(debris, lattice, horizon as int, Mode::Deplete),
            (Query { start, goal, horizon, mode: Mode::Deplete, resource_budget: budget }),
        ),
{
    let q = Query { start, goal, horizon, mode: Mode::Avoid, resource_budget: None };
    let counted = debris_field(debris, lattice, horizon as int, Mode::Deplete);
    lemma_avoid_reads_presence(debris, lattice, horizon as int, q, la);
    lemma_deplete_reaches_what_avoid_reaches(counted, q, budget, la);
    assert(depleting(q, budget) == (Query { start, goal, horizon, mode: Mode::Deplete, resource_budget: budget }));
    lemma_least_exists(counted, depleting(q, budget), la)
}

/// The debris that a walk has met on its first `j` moves: the pieces in
/// every cell that it entered, at the tick at which it entered, the start
/// cell apart.
pub open spec fn met(field: Field, q: Query, walk: Seq<SearchState>, j: int) -> nat
    decreases j,
{
    if j <= 0 {
        0
    } else {
        met(field, q, walk, j - 1) + if walk[j].position == q.start {
            0nat
        } else {
            field.count(walk[j].tick as int, walk[j].position)
        }
    }
}

/// A move of `Deplete` mode with a counted resource enters no cell, the
/// start apart, that holds more debris than is left, and leaves what was
/// left less the debris there.
pub proof fn lemma_move_is_paid(field: Field, q: Query, from: SearchState, to: SearchState)
    requires
        q.mode == Mode::Deplete,
        from.resource is Some,
        step(field, q, from, to),
    ensures
        to.tick == from.tick + 1,
        to.resource is Some,
        to.position == q.start ==> to.resource == from.resource,
        to.position != q.start ==> field.count(to.tick as int, to.position) <= from.resource->Some_0
            && to.resource->Some_0 == from.resource->Some_0 - field.count(to.tick as int, to.position),
{
    let k = choose|k: int| 0 <= k < 7 && successor(field, q, from, #[trigger] moves()[k]) == Some(to);
    assert(successor(field, q, from, moves()[k]) == Some(to));
}

/// Along a walk of `Deplete` mode with a counted resource, what is left
/// after each move and the debris met so far are together what the walk
/// began with.
pub proof fn lemma_walk_is_paid(field: Field, q: Query, walk: Seq<SearchState>, j: int)
    requires
        q.mode == Mode::Deplete,
        is_walk(field, q, walk),
        walk[0].resource is Some,
        0 <= j < walk.len(),
    ensures
        walk[j].resource is Some,
        walk[j].resource->Some_0 + met(field, q, walk, j) == walk[0].resource->Some_0,
    decreases j,
{
    if j > 0 {
        lemma_walk_is_paid(field, q, walk, j - 1);
        assert(step(field, q, walk[j - 1], walk[j]));
        lemma_move_is_paid(field, q, walk[j - 1], walk[j]);
    }
}

/// A route of `Deplete` mode with a budget has met, after each of its
/// moves, no more debris than the budget.
pub proof fn lemma_route_within_budget(field: Field, q: Query, route: Seq<SearchState>, j: int)
    requires
        q.mode == Mode::Deplete,
        q.resource_budget is Some,
        is_route(field, q, route),
        0 <= j < route.len(),
    ensures
        met(field, q, route, j) <= q.resource_budget->Some_0,
        route[j].resource == Some((q.resource_budget->Some_0 - met(field, q, route, j)) as u64),
{
    lemma_walk_is_paid(field, q, route, j);
}

/// A route of `Deplete` mode with a budget is, the resource apart, a route
/// without a budget.
proof fn lemma_budget_route_is_free(field: Field, q: Query, route: Seq<SearchState>)
    requires
        q.mode == Mode::Deplete,
        q.resource_budget is Some,
        is_route(field, q, route),
    ensures
        is_route(field, depleting(q, None), recast(route, None)),
{
    let q2 = depleting(q, None);
    let free = recast(route, None);
    assert forall|i: int| 0 <= i < free.len() - 1 implies step(field, q2, #[trigger] free[i], free[i + 1]) by {
        lemma_walk_is_paid(field, q, route, i);
        assert(step(field, q, route[i], route[i + 1]));
        lemma_move_is_paid(field, q, route[i], route[i + 1]);
        let k = choose|k: int| 0 <= k < 7 && successor(field, q, route[i], #[trigger] moves()[k]) == Some(route[i + 1]);
        assert(successor(field, q2, free[i], moves()[k]) == Some(free[i + 1]));
    }
    assert(free[0] == q2.initial());
}

/// Whatever `Deplete` mode reaches with a budget, it reaches without one in
/// as many moves.
pub proof fn lemma_budget_reaches_no_more(field: Field, q: Query, n: int)
    requires
        q.mode == Mode::Deplete,
        q.resource_budget is Some,
        reachable_in(field, q, n),
    ensures
        reachable_in(field, depleting(q, None), n),
{
    let route = choose|route: Seq<SearchState>| #[trigger] is_route(field, q, route) && route.len() == n + 1;
    lemma_budget_route_is_free(field, q, route);
    assert(recast(route, None).len() == n + 1);
}

/// Whether a route enters, after one of its moves, a cell other than the
/// start that holds more debris than `budget` at that tick.
pub open spec fn enters_beyond(field: Field, q: Query, route: Seq<SearchState>, budget: u64) -> bool {
    exists|k: int|
        1 <= k < route.len() && (#[trigger] route[k]).position != q.start && field.count(k, route[k].position)
            > budget
}

/// Where every shortest route without a budget enters a cell that holds
/// more debris than the budget, every route with the budget takes more
/// moves than those: the search with the budget finds a longer route or
/// none, and the lack of resource is no other outcome.
pub proof fn lemma_short_budget_costs_moves(field: Field, q: Query, budget: u64, least: int, n: int)
    requires
        field.lattice.wf(),
        q.mode == Mode::Deplete,
        q.resource_budget == Some(budget),
        shortest(field, depleting(q, None), least),
        forall|route: Seq<SearchState>| #[trigger]
            is_route(field, depleting(q, None), route) && route.len() == least + 1 ==> enters_beyond(
                field,
                q,
                route,
                budget,
            ),
        reachable_in(field, q, n),
    ensures
        n > least,
{
    lemma_budget_reaches_no_more(field, q, n);
    if n == least {
        let route = choose|route: Seq<SearchState>| #[trigger] is_route(field, q, route) && route.len() == n + 1;
        lemma_budget_route_is_free(field, q, route);
        let free = recast(route, None);
        assert(is_route(field, depleting(q, None), free) && free.len() == least + 1);
        assert(enters_beyond(field, q, free, budget));
        let k = choose|k: int|
            1 <= k < free.len() && (#[trigger] free[k]).position != q.start && field.count(k, free[k].position)
                > budget;
        lemma_walk_ticks(field, q, route, k);
        lemma_walk_is_paid(field, q, route, k - 1);
        assert(step(field, q, route[k - 1], route[k]));
        lemma_move_is_paid(field, q, route[k - 1], route[k]);
        lemma_route_within_budget(field, q, route, k - 1);
    }
}

} // verus!
