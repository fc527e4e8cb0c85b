//! The shortest route of an agent through the lattice: one move per tick,
//! past debris whose places at every tick an occupancy index records.

use vstd::prelude::*;
use crate::lattice::Vec3;
use crate::occupancy::{Field, Mode, OccupancyIndex};

verus! {

/// A node of the search: where the agent is, at which tick, and what is left
/// of its resource. `None` stands for a resource that is not counted: in
/// `Avoid` mode, and in `Deplete` mode without a budget.
#[derive(Clone, Copy, Debug, PartialEq, Eq)]
pub struct SearchState {
    pub position: Vec3,
    pub tick: u32,
    pub resource: Option<u64>,
}

/// What is asked of a search.
#[derive(Clone, Copy, Debug)]
pub struct Query {
    pub start: Vec3,
    pub goal: Vec3,
    pub horizon: u32,
    pub mode: Mode,
    pub resource_budget: Option<u64>,
}

/// The outcome of a search that found no route: none reaches the goal
/// within the horizon.
#[derive(Clone, Copy, Debug, PartialEq, Eq, Structural)]
pub struct Unreachable;

/// The seven moves of one tick: to stay, or one step along one axis.
pub open spec fn moves() -> Seq<(int, int, int)> {
    seq![(0, 0, 0), (1, 0, 0), (-1, 0, 0), (0, 1, 0), (0, -1, 0), (0, 0, -1), (0, 0, 1)]
}

/// The distance between two cells in steps along the axes.
pub open spec fn manhattan(a: Vec3, b: Vec3) -> nat {
    vstd::math::abs(a.x - b.x) + vstd::math::abs(a.y - b.y) + vstd::math::abs(a.z - b.z)
}

/// The distance between two coordinates.
fn axis_distance(a: i16, b: i16) -> (r: u64)
    ensures
        r == vstd::math::abs(a - b),
{
    if a >= b {
        (a as i64 - b as i64) as u64
    } else {
        (b as i64 - a as i64) as u64
    }
}

impl Query {
    /// The node that a search starts from: the start cell at tick zero, with
    /// the whole budget where the resource is counted.
    pub open spec fn initial(&self) -> SearchState {
        SearchState {
            position: self.start,
            tick: 0,
            resource: match self.mode {
                Mode::Avoid => None,
                Mode::Deplete => self.resource_budget,
            },
        }
    }

    /// The node that a search starts from.
    pub fn initial_state(&self) -> (r: SearchState)
        ensures
            r == self.initial(),
    {
        SearchState {
            position: self.start,
            tick: 0,
            resource: match self.mode {
                Mode::Avoid => None,
                Mode::Deplete => self.resource_budget,
            },
        }
    }

    /// Whether a node is at the goal, at whatever tick and with whatever
    /// resource.
    pub fn is_goal(&self, s: &SearchState) -> (r: bool)
        ensures
            r == (s.position == self.goal),
    {
        s.position.x == self.goal.x && s.position.y == self.goal.y && s.position.z == self.goal.z
    }

    /// The least number of moves from a node to the goal in an empty lattice.
    pub fn heuristic(&self, s: &SearchState) -> (r: u64)
        ensures
            r == manhattan(s.position, self.goal),
    {
        axis_distance(s.position.x, self.goal.x) + axis_distance(s.position.y, self.goal.y)
            + axis_distance(s.position.z, self.goal.z)
    }
}

/// What is left of the resource after the agent enters `dest` one tick after
/// `from`, or `None` where it may not enter. The start cell is always safe.
/// In `Avoid` mode a cell that holds debris may not be entered. In `Deplete`
/// mode each piece there costs one unit, and a cell that costs more than is
/// left may not be entered; a resource that is not counted is never used up.
pub open spec fn resource_after(field: Field, q: Query, from: SearchState, dest: Vec3) -> Option<
    Option<u64>,
> {
    let n = field.count(from.tick + 1, dest);
    if dest == q.start {
        Some(from.resource)
    } else {
        match q.mode {
            Mode::Avoid => if n > 0 {
                None
            } else {
                Some(from.resource)
            },
            Mode::Deplete => match from.resource {
                None => Some(None),
                Some(r) => if n <= r {
                    Some(Some((r - n) as u64))
                } else {
                    None
                },
            },
        }
    }
}

/// The node that the move `d` leads to from `from`, if the move is allowed:
/// the horizon is not passed, the cell lies in the lattice, and the agent may
/// enter it.
pub open spec fn successor(field: Field, q: Query, from: SearchState, d: (int, int, int)) -> Option<
    SearchState,
> {
    let x = from.position.x + d.0;
    let y = from.position.y + d.1;
    let z = from.position.z + d.2;
    let dest = Vec3 { x: x as i16, y: y as i16, z: z as i16 };
    if from.tick < q.horizon && 0 <= x < field.lattice.x_size && 0 <= y < field.lattice.y_size && 0 <= z
        < field.lattice.z_size {
        match resource_after(field, q, from, dest) {
            Some(left) => Some(SearchState { position: dest, tick: (from.tick + 1) as u32, resource: left }),
            None => None,
        }
    } else {
        None
    }
}

/// Whether one allowed move leads from `from` to `to`.
pub open spec fn step(field: Field, q: Query, from: SearchState, to: SearchState) -> bool {
    exists|k: int| 0 <= k < 7 && successor(field, q, from, #[trigger] moves()[k]) == Some(to)
}

/// A walk: a sequence of nodes, each one allowed move after the one before.
pub open spec fn is_walk(field: Field, q: Query, walk: Seq<SearchState>) -> bool {
    &&& walk.len() > 0
    &&& forall|i: int| 0 <= i < walk.len() - 1 ==> step(field, q, #[trigger] walk[i], walk[i + 1])
}

/// A route: a walk from the initial node to the goal.
pub open spec fn is_route(field: Field, q: Query, route: Seq<SearchState>) -> bool {
    &&& is_walk(field, q, route)
    &&& route[0] == q.initial()
    &&& route.last().position == q.goal
}

/// Whether some route takes exactly `n` moves.
pub open spec fn reachable_in(field: Field, q: Query, n: int) -> bool {
    exists|route: Seq<SearchState>| #[trigger] is_route(field, q, route) && route.len() == n + 1
}

/// Whether `n` is the least number of moves of any route.
pub open spec fn shortest(field: Field, q: Query, n: int) -> bool {
    &&& reachable_in(field, q, n)
    &&& forall|m: int| m < n ==> !#[trigger] reachable_in(field, q, m)
}

/// Whether no route reaches the goal.
pub open spec fn no_route(field: Field, q: Query) -> bool {
    forall|n: int| !#[trigger] reachable_in(field, q, n)
}

/// One move changes the distance to any cell by at most one.
proof fn lemma_step_distance(field: Field, q: Query, from: SearchState, to: SearchState, goal: Vec3)
    requires
        field.lattice.wf(),
        step(field, q, from, to),
    ensures
        manhattan(from.position, goal) <= manhattan(to.position, goal) + 1,
        to.tick == from.tick + 1,
        to.tick <= q.horizon,
        field.lattice.contains(to.position),
{
    let k = choose|k: int| 0 <= k < 7 && successor(field, q, from, #[trigger] moves()[k]) == Some(to);
    assert(successor(field, q, from, moves()[k]) == Some(to));
}

/// The distance to the goal never overrates the moves that are needed: no
/// walk from a node to the goal is shorter than the distance between them.
pub proof fn lemma_heuristic_admissible(field: Field, q: Query, walk: Seq<SearchState>)
    requires
        field.lattice.wf(),
        is_walk(field, q, walk),
        walk.last().position == q.goal,
    ensures
        manhattan(walk[0].position, q.goal) <= walk.len() - 1,
    decreases walk.len(),
{
    if walk.len() > 1 {
        let rest = walk.skip(1);
        assert forall|i: int| 0 <= i < rest.len() - 1 implies step(field, q, #[trigger] rest[i], rest[i + 1]) by {
            assert(step(field, q, walk[i + 1], walk[i + 2]));
        }
        assert(rest.last() == walk.last());
        lemma_heuristic_admissible(field, q, rest);
        assert(step(field, q, walk[0], walk[1]));
        lemma_step_distance(field, q, walk[0], walk[1], q.goal);
    }
}

/// Along a walk one tick passes per move, and the horizon is never passed.
pub proof fn lemma_walk_ticks(field: Field, q: Query, walk: Seq<SearchState>, i: int)
    requires
        field.lattice.wf(),
        is_walk(field, q, walk),
        0 <= i < walk.len(),
    ensures
        walk[i].tick == walk[0].tick + i,
        i > 0 ==> walk[i].tick <= q.horizon && field.lattice.contains(walk[i].position),
    decreases i,
{
    if i > 0 {
        lemma_walk_ticks(field, q, walk, i - 1);
        assert(step(field, q, walk[i - 1], walk[i]));
        lemma_step_distance(field, q, walk[i - 1], walk[i], q.goal);
    }
}

/// No route takes more moves than the horizon has ticks.
pub proof fn lemma_reachable_within_horizon(field: Field, q: Query, n: int)
    requires
        field.lattice.wf(),
        reachable_in(field, q, n),
    ensures
        0 <= n <= q.horizon,
{
    let route = choose|route: Seq<SearchState>| #[trigger] is_route(field, q, route) && route.len() == n + 1;
    lemma_walk_ticks(field, q, route, n);
}

/// The move with the given number, in the order of `moves()`.
fn move_at(k: usize) -> (d: (i32, i32, i32))
    requires
        k < 7,
    ensures
        (d.0 as int, d.1 as int, d.2 as int) == moves()[k as int],
{
    if k == 0 {
        (0, 0, 0)
    } else if k == 1 {
        (1, 0, 0)
    } else if k == 2 {
        (-1, 0, 0)
    } else if k == 3 {
        (0, 1, 0)
    } else if k == 4 {
        (0, -1, 0)
    } else if k == 5 {
        (0, 0, -1)
    } else {
        (0, 0, 1)
    }
}

/// The node that one move leads to, if the move is allowed.
pub fn try_move(index: &OccupancyIndex, q: &Query, from: &SearchState, d: (i32, i32, i32)) -> (r: Option<
    SearchState,
>)
    requires
        index.wf(),
        q.horizon <= index.horizon(),
        -1 <= d.0 <= 1,
        -1 <= d.1 <= 1,
        -1 <= d.2 <= 1,
    ensures
        r == successor(index@, *q, *from, (d.0 as int, d.1 as int, d.2 as int)),
{
    if from.tick >= q.horizon {
        return None;
    }
    let x: i32 = from.position.x as i32 + d.0;
    let y: i32 = from.position.y as i32 + d.1;
    let z: i32 = from.position.z as i32 + d.2;
    let lattice = &index.lattice;
    if !(0 <= x && x < lattice.x_size as i32 && 0 <= y && y < lattice.y_size as i32 && 0 <= z && z
        < lattice.z_size as i32) {
        return None;
    }
    let dest = Vec3 { x: x as i16, y: y as i16, z: z as i16 };
    let tick: u32 = from.tick + 1;
    let free = dest.x == q.start.x && dest.y == q.start.y && dest.z == q.start.z;
    if free {
        return Some(SearchState { position: dest, tick, resource: from.resource });
    }
    let n: u64 = index.count_at(tick, dest);
    match q.mode {
        Mode::Avoid => if n > 0 {
            None
        } else {
            Some(SearchState { position: dest, tick, resource: from.resource })
        },
        Mode::Deplete => match from.resource {
            None => Some(SearchState { position: dest, tick, resource: None }),
            Some(left) => if n <= left {
                Some(SearchState { position: dest, tick, resource: Some(left - n) })
            } else {
                None
            },
        },
    }
}

/// Whether a node is among the listed successors.
pub open spec fn listed(list: Seq<(SearchState, u64)>, to: SearchState) -> bool {
    exists|i: int| 0 <= i < list.len() && (#[trigger] list[i]).0 == to
}

/// The nodes that one allowed move leads to from `from`, each at the cost of
/// one tick.
pub fn successors(index: &OccupancyIndex, q: &Query, from: &SearchState) -> (r: Vec<(SearchState, u64)>)
    requires
        index.wf(),
        q.horizon <= index.horizon(),
    ensures
        forall|i: int| 0 <= i < r.len() ==> step(index@, *q, *from, (#[trigger] r[i]).0) && r[i].1 == 1,
        forall|to: SearchState| step(index@, *q, *from, to) ==> listed(r@, to),
{
    let mut out: Vec<(SearchState, u64)> = Vec::new();
    let mut k: usize = 0;
    while k < 7
        invariant
            index.wf(),
            q.horizon <= index.horizon(),
            k <= 7,
            forall|i: int| 0 <= i < out.len() ==> step(index@, *q, *from, (#[trigger] out[i]).0) && out[i].1 == 1,
            forall|j: int|
                0 <= j < k ==> match successor(index@, *q, *from, #[trigger] moves()[j]) {
                    Some(to) => listed(out@, to),
                    None => true,
                },
        decreases 7 - k,
    {
        let d = move_at(k);
        let ghost before = out@;
        match try_move(index, q, from, d) {
            Some(to) => {
                out.push((to, 1));
                proof {
                    assert(successor(index@, *q, *from, moves()[k as int]) == Some(to));
                    assert(out[out.len() - 1].0 == to);
                    assert forall|t2: SearchState| listed(before, t2) implies listed(out@, t2) by {
                        let i = choose|i: int| 0 <= i < before.len() && (#[trigger] before[i]).0 == t2;
                        assert(out[i].0 == t2);
                    }
                }
            },
            None => {},
        }
        k += 1;
    }
    proof {
        assert forall|to: SearchState| step(index@, *q, *from, to) implies listed(out@, to) by {
            let j = choose|j: int| 0 <= j < 7 && successor(index@, *q, *from, #[trigger] moves()[j]) == Some(to);
            assert(successor(index@, *q, *from, moves()[j]) == Some(to));
        }
    }
    out
}

/// A node as a row of numbers: the three coordinates of the cell, the
/// tick, whether the resource is counted, and what is left of it (zero
/// where it is not counted).
pub type Node = (i16, i16, i16, u32, bool, u64);

/// The row of numbers that stands for a node.
pub open spec fn node_of(s: SearchState) -> Node {
    (
        s.position.x,
        s.position.y,
        s.position.z,
        s.tick,
        s.resource is Some,
        match s.resource {
            Some(left) => left,
            None => 0u64,
        },
    )
}

/// The node that a row of numbers stands for.
pub open spec fn state_of(n: Node) -> SearchState {
    SearchState {
        position: Vec3 { x: n.0, y: n.1, z: n.2 },
        tick: n.3,
        resource: if n.4 {
            Some(n.5)
        } else {
            None
        },
    }
}

/// A node is the one that its row of numbers stands for, so two nodes with
/// the same row are one node.
pub proof fn lemma_node_round_trip(s: SearchState)
    ensures
        state_of(node_of(s)) == s,
{
}

/// The row of numbers that stands for a node.
pub fn to_node(s: &SearchState) -> (r: Node)
    ensures
        r == node_of(*s),
{
    match s.resource {
        Some(left) => (s.position.x, s.position.y, s.position.z, s.tick, true, left),
        None => (s.position.x, s.position.y, s.position.z, s.tick, false, 0),
    }
}

/// The node that a row of numbers stands for.
pub fn to_state(n: &Node) -> (r: SearchState)
    ensures
        r == state_of(*n),
{
    SearchState {
        position: Vec3 { x: n.0, y: n.1, z: n.2 },
        tick: n.3,
        resource: if n.4 {
            Some(n.5)
        } else {
            None
        },
    }
}

/// Whether a row of numbers is among the listed ones.
pub open spec fn listed_node(list: Seq<(Node, u64)>, to: Node) -> bool {
    exists|i: int| 0 <= i < list.len() && (#[trigger] list[i]).0 == to
}

/// The successors of the node that a row of numbers stands for, each as its
/// row and at the cost of one tick.
pub fn node_successors(index: &OccupancyIndex, q: &Query, from: &Node) -> (r: Vec<(Node, u64)>)
    requires
        index.wf(),
        q.horizon <= index.horizon(),
    ensures
        forall|i: int|
            0 <= i < r.len() ==> step(index@, *q, state_of(*from), state_of((#[trigger] r[i]).0)) && r[i].0
                == node_of(state_of(r[i].0)) && r[i].1 == 1,
        forall|to: SearchState| step(index@, *q, state_of(*from), to) ==> listed_node(r@, node_of(to)),
{
    let at = to_state(from);
    let list = successors(index, q, &at);
    let mut out: Vec<(Node, u64)> = Vec::new();
    let mut i: usize = 0;
    while i < list.len()
        invariant
            i <= list.len(),
            out.len() == i,
            forall|j: int| 0 <= j < i ==> (#[trigger] out[j]).0 == node_of(list[j].0) && out[j].1 == list[j].1,
        decreases list.len() - i,
    {
        let node = to_node(&list[i].0);
        out.push((node, list[i].1));
        i += 1;
    }
    proof {
        assert forall|j: int| 0 <= j < out.len() implies step(
            index@,
            *q,
            state_of(*from),
            state_of((#[trigger] out[j]).0),
        ) && out[j].0 == node_of(state_of(out[j].0)) && out[j].1 == 1 by {
            lemma_node_round_trip(list[j].0);
            assert(step(index@, *q, at, list[j].0) && list[j].1 == 1);
        }
        assert forall|to: SearchState| step(index@, *q, state_of(*from), to) implies listed_node(
            out@,
            node_of(to),
        ) by {
            assert(listed(list@, to));
            let j = choose|j: int| 0 <= j < list.len() && (#[trigger] list[j]).0 == to;
            assert(out[j].0 == node_of(to));
        }
    }
    out
}

/// The least number of moves to the goal in an empty lattice, from the
/// node that a row of numbers stands for.
pub fn node_heuristic(q: &Query, from: &Node) -> (r: u64)
    ensures
        r == manhattan(state_of(*from).position, q.goal),
{
    let at = to_state(from);
    q.heuristic(&at)
}

/// Whether the node that a row of numbers stands for is at the goal.
pub fn node_is_goal(q: &Query, from: &Node) -> (r: bool)
    ensures
        r == (state_of(*from).position == q.goal),
{
    let at = to_state(from);
    q.is_goal(&at)
}

/// `pathfinding`'s `astar`, from the given node over `node_successors`,
/// with `node_heuristic` as the estimate and `node_is_goal` as the test for
/// success: the cost of a cheapest path to a node that passes the test, or
/// `None` where there is no such path. The estimate must never exceed the
/// real cost. The nodes are rows of numbers, each standing for one node of
/// the search, so the paths that it weighs are the walks from the initial
/// node.
#[verifier::external_body]
fn astar_cost(index: &OccupancyIndex, q: &Query, from: &Node) -> (r: Option<u64>)
    requires
        index.wf(),
        q.horizon <= index.horizon(),
        *from == node_of(q.initial()),
        forall|walk: Seq<SearchState>|
            #[trigger] is_walk(index@, *q, walk) && walk.last().position == q.goal ==> manhattan(
                walk[0].position,
                q.goal,
            ) <= walk.len() - 1,
    ensures
        match r {
            Some(n) => shortest(index@, *q, n as int),
            None => no_route(index@, *q),
        },
{
    pathfinding::directed::astar::astar(
        from,
        |n| node_successors(index, q, n),
        |n| node_heuristic(q, n),
        |n| node_is_goal(q, n),
    ).map(|found| found.1)
}

/// The least number of moves in which the agent reaches the goal from the
/// start, one move per tick and no more ticks than the horizon, or
/// `Unreachable` where no route does.
///
/// In `Avoid` mode the agent never enters a cell that holds debris at the
/// tick of its arrival, and the budget is not read. In `Deplete` mode each
/// piece of debris in a cell that it enters costs one unit of the budget,
/// and it enters no cell that costs more than it has left; without a budget
/// every cell of the lattice may be entered. The start cell is safe at every
/// tick in both modes.
pub fn search(
    index: &OccupancyIndex,
    start: Vec3,
    goal: Vec3,
    horizon: u32,
    mode: Mode,
    resource_budget: Option<u64>,
) -> (r: Result<u32, Unreachable>)
    requires
        index.wf(),
        horizon <= index.horizon(),
    ensures
        match r {
            Ok(n) => shortest(index@, (Query { start, goal, horizon, mode, resource_budget }), n as int),
            Err(_) => no_route(index@, (Query { start, goal, horizon, mode, resource_budget })),
        },
{
    let q = Query { start, goal, horizon, mode, resource_budget };
    proof {
        assert forall|walk: Seq<SearchState>| #[trigger]
            is_walk(index@, q, walk) && walk.last().position == q.goal implies manhattan(
            walk[0].position,
            q.goal,
        ) <= walk.len() - 1 by {
            lemma_heuristic_admissible(index@, q, walk);
        }
    }
    let first = q.initial_state();
    let from = to_node(&first);
    match astar_cost(index, &q, &from) {
        Some(n) => {
            proof {
                lemma_reachable_within_horizon(index@, q, n as int);
            }
            Ok(n as u32)
        },
        None => Err(Unreachable),
    }
}

} // verus!
