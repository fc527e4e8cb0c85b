//! The same shortest route found without a heuristic: tick by tick, the
//! cells that the agent can be in and the most resource it can have there.

use vstd::prelude::*;
use crate::lattice::{Lattice, Vec3};
use crate::occupancy::{Field, Mode, OccupancyIndex};
use crate::search::{
    is_route, is_walk, lemma_reachable_within_horizon, lemma_walk_ticks, listed, moves, reachable_in,
    shortest, step, successor, successors, no_route, Query, SearchState, Unreachable,
};

verus! {

/// Whether what is left of a resource is at least another; a resource that
/// is not counted is above every counted one.
pub open spec fn covers(a: Option<u64>, b: Option<u64>) -> bool {
    match (a, b) {
        (None, _) => true,
        (Some(x), Some(y)) => x >= y,
        (Some(_), None) => false,
    }
}

/// Whether some walk of `t` moves leads from the initial node to `s`.
pub open spec fn reached(field: Field, q: Query, t: int, s: SearchState) -> bool {
    exists|walk: Seq<SearchState>|
        #[trigger] is_walk(field, q, walk) && walk[0] == q.initial() && walk.len() == t + 1 && walk.last()
            == s
}

/// The node in the cell with offset `i` at tick `t` with `left` of the
/// resource.
pub open spec fn node(lattice: Lattice, i: int, t: int, left: Option<u64>) -> SearchState {
    SearchState { position: lattice.cell_at(i), tick: t as u32, resource: left }
}

/// A layer says of every cell whether the agent can be there at one tick,
/// and with how much of its resource at most.
pub type Layer = Seq<Option<Option<u64>>>;

/// Whether a layer records for the cell of `s` at least the resource of `s`.
pub open spec fn entry_covers(lattice: Lattice, layer: Layer, s: SearchState) -> bool {
    match layer[lattice.index_of(s.position)] {
        Some(left) => covers(left, s.resource),
        None => false,
    }
}

/// Every entry of the layer is the end of a walk of `t` moves.
pub open spec fn layer_sound(field: Field, q: Query, t: int, layer: Layer) -> bool {
    forall|i: int|
        0 <= i < layer.len() ==> match #[trigger] layer[i] {
            Some(left) => reached(field, q, t, node(field.lattice, i, t, left)),
            None => true,
        }
}

/// The end of every walk of `t` moves is covered by the layer.
pub open spec fn layer_complete(field: Field, q: Query, t: int, layer: Layer) -> bool {
    forall|s: SearchState| #[trigger]
        reached(field, q, t, s) && field.lattice.contains(s.position) ==> entry_covers(field.lattice, layer, s)
}

/// Whether a layer covers every node that one move leads to from `from`.
pub open spec fn serves(field: Field, q: Query, layer: Layer, from: SearchState) -> bool {
    forall|k: int|
        0 <= k < 7 ==> match successor(field, q, from, #[trigger] moves()[k]) {
            Some(to) => entry_covers(field.lattice, layer, to),
            None => true,
        }
}

/// Whether a layer records at least what another does.
pub open spec fn dominates(a: Layer, b: Layer) -> bool {
    &&& a.len() == b.len()
    &&& forall|j: int|
        0 <= j < b.len() ==> match #[trigger] b[j] {
            Some(rb) => match a[j] {
                Some(ra) => covers(ra, rb),
                None => false,
            },
            None => true,
        }
}

/// More resource allows every move that less allows, and leaves no less.
proof fn lemma_successor_monotone(field: Field, q: Query, a: SearchState, b: SearchState, d: (int, int, int))
    requires
        a.position == b.position,
        a.tick == b.tick,
        covers(a.resource, b.resource),
        successor(field, q, b, d) is Some,
    ensures
        successor(field, q, a, d) is Some,
        successor(field, q, a, d)->Some_0.position == successor(field, q, b, d)->Some_0.position,
        covers(successor(field, q, a, d)->Some_0.resource, successor(field, q, b, d)->Some_0.resource),
{
}

/// A layer that dominates one that serves a node serves that node too.
proof fn lemma_serves_grows(field: Field, q: Query, small: Layer, large: Layer, from: SearchState)
    requires
        field.lattice.wf(),
        small.len() == field.lattice.volume(),
        dominates(large, small),
        serves(field, q, small, from),
    ensures
        serves(field, q, large, from),
{
    assert forall|k: int| 0 <= k < 7 implies match successor(field, q, from, #[trigger] moves()[k]) {
        Some(to) => entry_covers(field.lattice, large, to),
        None => true,
    } by {
        match successor(field, q, from, moves()[k]) {
            Some(to) => {
                assert(entry_covers(field.lattice, small, to));
                field.lattice.lemma_index_in_range(to.position);
                assert(small[field.lattice.index_of(to.position)] is Some);
            },
            None => {},
        }
    }
}

/// A walk with one more allowed move at its end is a walk.
proof fn lemma_walk_push(field: Field, q: Query, walk: Seq<SearchState>, to: SearchState)
    requires
        is_walk(field, q, walk),
        step(field, q, walk.last(), to),
    ensures
        is_walk(field, q, walk.push(to)),
{
    let longer = walk.push(to);
    assert forall|i: int| 0 <= i < longer.len() - 1 implies step(field, q, #[trigger] longer[i], longer[i + 1]) by {
        if i < walk.len() - 1 {
            assert(step(field, q, walk[i], walk[i + 1]));
        }
    }
}

/// What one move from a reached node leads to is reached one tick later.
proof fn lemma_reached_step(field: Field, q: Query, t: int, from: SearchState, to: SearchState)
    requires
        reached(field, q, t, from),
        step(field, q, from, to),
    ensures
        reached(field, q, t + 1, to),
{
    let walk = choose|walk: Seq<SearchState>|
        #[trigger] is_walk(field, q, walk) && walk[0] == q.initial() && walk.len() == t + 1 && walk.last()
            == from;
    lemma_walk_push(field, q, walk, to);
    let longer = walk.push(to);
    assert(is_walk(field, q, longer) && longer[0] == q.initial() && longer.len() == t + 2 && longer.last()
        == to);
}

/// What is reached after one move or more was reached from a node reached
/// one tick before.
proof fn lemma_reached_from(field: Field, q: Query, t: int, to: SearchState) -> (from: SearchState)
    requires
        field.lattice.wf(),
        t >= 0,
        reached(field, q, t + 1, to),
    ensures
        reached(field, q, t, from),
        step(field, q, from, to),
        from.tick == t,
        to.tick == t + 1,
        field.lattice.contains(to.position),
        t >= 1 ==> field.lattice.contains(from.position),
{
    let walk = choose|walk: Seq<SearchState>|
        #[trigger] is_walk(field, q, walk) && walk[0] == q.initial() && walk.len() == t + 2 && walk.last()
            == to;
    let shorter = walk.drop_last();
    assert forall|i: int| 0 <= i < shorter.len() - 1 implies step(field, q, #[trigger] shorter[i], shorter[i + 1]) by {
        assert(step(field, q, walk[i], walk[i + 1]));
    }
    assert(is_walk(field, q, shorter) && shorter[0] == q.initial() && shorter.len() == t + 1);
    assert(step(field, q, walk[t], walk[t + 1]));
    lemma_walk_ticks(field, q, walk, t);
    lemma_walk_ticks(field, q, walk, t + 1);
    shorter.last()
}

/// Whether `a` is more than `b`.
fn exceeds(a: Option<u64>, b: Option<u64>) -> (r: bool)
    ensures
        r == !covers(b, a),
{
    match (a, b) {
        (None, None) => false,
        (None, Some(_)) => true,
        (Some(_), None) => false,
        (Some(x), Some(y)) => x > y,
    }
}

/// Records in a layer the nodes of a list: each cell keeps the most
/// resource that any node in it has.
fn absorb(lattice: &Lattice, layer: &mut Vec<Option<Option<u64>>>, list: &Vec<(SearchState, u64)>)
    requires
        lattice.wf(),
        old(layer).len() == lattice.volume(),
        forall|k: int| 0 <= k < list.len() ==> lattice.contains((#[trigger] list[k]).0.position),
    ensures
        final(layer).len() == lattice.volume(),
        dominates(final(layer)@, old(layer)@),
        forall|k: int| 0 <= k < list.len() ==> entry_covers(*lattice, final(layer)@, (#[trigger] list[k]).0),
        forall|j: int|
            0 <= j < final(layer).len() ==> (#[trigger] final(layer)[j]) == old(layer)[j] || exists|k: int|
                0 <= k < list.len() && lattice.index_of((#[trigger] list[k]).0.position) == j
                    && final(layer)[j] == Some(list[k].0.resource),
{
    let mut k: usize = 0;
    while k < list.len()
        invariant
            lattice.wf(),
            k <= list.len(),
            layer.len() == lattice.volume(),
            forall|k: int| 0 <= k < list.len() ==> lattice.contains((#[trigger] list[k]).0.position),
            dominates(layer@, old(layer)@),
            forall|m: int| 0 <= m < k ==> entry_covers(*lattice, layer@, (#[trigger] list[m]).0),
            forall|j: int|
                0 <= j < layer.len() ==> (#[trigger] layer[j]) == old(layer)[j] || exists|m: int|
                    0 <= m < k && lattice.index_of((#[trigger] list[m]).0.position) == j && layer[j] == Some(
                        list[m].0.resource,
                    ),
        decreases list.len() - k,
    {
        let to = list[k].0;
        let j = lattice.vec3_to_idx(to.position);
        let ghost before = layer@;
        let better = match layer[j] {
            Some(left) => exceeds(to.resource, left),
            None => true,
        };
        if better {
            layer.set(j, Some(to.resource));
        }
        proof {
            assert(dominates(layer@, before));
            assert forall|m: int| 0 <= m < k + 1 implies entry_covers(*lattice, layer@, (#[trigger] list[m]).0) by {
                if m < k {
                    assert(entry_covers(*lattice, before, list[m].0));
                    lattice.lemma_index_in_range(list[m].0.position);
                }
            }
            assert forall|i: int| 0 <= i < layer.len() implies (#[trigger] layer[i]) == old(layer)[i] || exists|
                m: int,
            |
                0 <= m < k + 1 && lattice.index_of((#[trigger] list[m]).0.position) == i && layer[i] == Some(
                    list[m].0.resource,
                ) by {
                if i == j && better {
                    assert(lattice.index_of(list[k as int].0.position) == i);
                } else {
                    assert(layer[i] == before[i]);
                    if before[i] != old(layer)[i] {
                        let m = choose|m: int|
                            0 <= m < k && lattice.index_of((#[trigger] list[m]).0.position) == i && before[i]
                                == Some(list[m].0.resource);
                        assert(lattice.index_of(list[m].0.position) == i);
                    }
                }
            }
        }
        k += 1;
    }
}

/// A layer with no cell reached.
fn empty_layer(n: usize) -> (r: Vec<Option<Option<u64>>>)
    ensures
        r.len() == n,
        forall|i: int| 0 <= i < n ==> (#[trigger] r[i]) is None,
{
    let mut layer: Vec<Option<Option<u64>>> = Vec::new();
    let mut i: usize = 0;
    while i < n
        invariant
            i <= n,
            layer.len() == i,
            forall|k: int| 0 <= k < i ==> (#[trigger] layer[k]) is None,
        decreases n - i,
    {
        layer.push(None);
        i += 1;
    }
    layer
}

/// The layer of tick one: what one move leads to from the initial node.
fn first_layer(index: &OccupancyIndex, q: &Query) -> (r: Vec<Option<Option<u64>>>)
    requires
        index.wf(),
        q.horizon <= index.horizon(),
    ensures
        r.len() == index.lattice.volume(),
        layer_sound(index@, *q, 1, r@),
        layer_complete(index@, *q, 1, r@),
{
    let init = q.initial_state();
    let mut layer = empty_layer(index.lattice.cell_count());
    let list = successors(index, q, &init);
    let ghost start_walk = seq![init];
    proof {
        assert(is_walk(index@, *q, start_walk));
        assert(reached(index@, *q, 0, init));
        assert forall|k: int| 0 <= k < list.len() implies index.lattice.contains((#[trigger] list[k]).0.position) by {
            lemma_reached_step(index@, *q, 0, init, list[k].0);
            let from = lemma_reached_from(index@, *q, 0, list[k].0);
        }
    }
    absorb(&index.lattice, &mut layer, &list);
    proof {
        assert forall|i: int| 0 <= i < layer.len() implies match #[trigger] layer[i] {
            Some(left) => reached(index@, *q, 1, node(index.lattice, i, 1, left)),
            None => true,
        } by {
            if layer[i] is Some {
                let k = choose|k: int|
                    0 <= k < list.len() && index.lattice.index_of((#[trigger] list[k]).0.position) == i && layer[i]
                        == Some(list[k].0.resource);
                let to = list[k].0;
                lemma_reached_step(index@, *q, 0, init, to);
                let from = lemma_reached_from(index@, *q, 0, to);
                index.lattice.lemma_cell_at_index(to.position);
                assert(to == node(index.lattice, i, 1, to.resource));
            }
        }
        assert forall|s: SearchState| #[trigger]
            reached(index@, *q, 1, s) && index.lattice.contains(s.position) implies entry_covers(
            index.lattice,
            layer@,
            s,
        ) by {
            let from = lemma_reached_from(index@, *q, 0, s);
            let walk = choose|walk: Seq<SearchState>|
                #[trigger] is_walk(index@, *q, walk) && walk[0] == q.initial() && walk.len() == 1 && walk.last()
                    == from;
            assert(from == init);
            assert(listed(list@, s));
            let k = choose|k: int| 0 <= k < list.len() && (#[trigger] list[k]).0 == s;
            assert(entry_covers(index.lattice, layer@, list[k].0));
        }
    }
    layer
}

/// The layer of the next tick: what one move leads to from the nodes of
/// this one.
fn next_layer(index: &OccupancyIndex, q: &Query, t: u32, layer: &Vec<Option<Option<u64>>>) -> (r: Vec<
    Option<Option<u64>>,
>)
    requires
        index.wf(),
        q.horizon <= index.horizon(),
        1 <= t < q.horizon,
        layer.len() == index.lattice.volume(),
        layer_sound(index@, *q, t as int, layer@),
        layer_complete(index@, *q, t as int, layer@),
    ensures
        r.len() == index.lattice.volume(),
        layer_sound(index@, *q, t + 1, r@),
        layer_complete(index@, *q, t + 1, r@),
{
    let n = index.lattice.cell_count();
    let mut next = empty_layer(n);
    let mut i: usize = 0;
    while i < n
        invariant
            index.wf(),
            q.horizon <= index.horizon(),
            1 <= t < q.horizon,
            n == index.lattice.volume(),
            layer.len() == n,
            next.len() == n,
            i <= n,
            layer_sound(index@, *q, t as int, layer@),
            layer_sound(index@, *q, t + 1, next@),
            forall|j: int|
                0 <= j < i ==> match #[trigger] layer[j] {
                    Some(left) => serves(index@, *q, next@, node(index.lattice, j, t as int, left)),
                    None => true,
                },
        decreases n - i,
    {
        match layer[i] {
            Some(left) => {
                let from = SearchState { position: index.lattice.idx_to_vec3(i), tick: t, resource: left };
                assert(from == node(index.lattice, i as int, t as int, left));
                assert(reached(index@, *q, t as int, from));
                let list = successors(index, q, &from);
                let ghost before = next@;
                proof {
                    assert forall|k: int| 0 <= k < list.len() implies index.lattice.contains(
                        (#[trigger] list[k]).0.position,
                    ) by {
                        lemma_reached_step(index@, *q, t as int, from, list[k].0);
                        let prior = lemma_reached_from(index@, *q, t as int, list[k].0);
                    }
                }
                absorb(&index.lattice, &mut next, &list);
                proof {
                    assert forall|j: int| 0 <= j < next.len() implies match #[trigger] next[j] {
                        Some(l2) => reached(index@, *q, t + 1, node(index.lattice, j, t + 1, l2)),
                        None => true,
                    } by {
                        if next[j] is Some && next[j] != before[j] {
                            let k = choose|k: int|
                                0 <= k < list.len() && index.lattice.index_of((#[trigger] list[k]).0.position)
                                    == j && next[j] == Some(list[k].0.resource);
                            let to = list[k].0;
                            lemma_reached_step(index@, *q, t as int, from, to);
                            let prior = lemma_reached_from(index@, *q, t as int, to);
                            index.lattice.lemma_cell_at_index(to.position);
                            assert(to == node(index.lattice, j, t + 1, to.resource));
                        } else if next[j] is Some {
                            assert(before[j] is Some);
                        }
                    }
                    assert forall|j: int| 0 <= j < i + 1 implies match #[trigger] layer[j] {
                        Some(l2) => serves(index@, *q, next@, node(index.lattice, j, t as int, l2)),
                        None => true,
                    } by {
                        if j < i {
                            match layer[j] {
                                Some(l2) => {
                                    lemma_serves_grows(index@, *q, before, next@, node(index.lattice, j, t as int, l2));
                                },
                                None => {},
                            }
                        } else {
                            assert forall|k: int| 0 <= k < 7 implies match successor(
                                index@,
                                *q,
                                from,
                                #[trigger] moves()[k],
                            ) {
                                Some(to) => entry_covers(index.lattice, next@, to),
                                None => true,
                            } by {
                                match successor(index@, *q, from, moves()[k]) {
                                    Some(to) => {
                                        assert(step(index@, *q, from, to));
                                        assert(listed(list@, to));
                                        let m = choose|m: int| 0 <= m < list.len() && (#[trigger] list[m]).0 == to;
                                        assert(entry_covers(index.lattice, next@, list[m].0));
                                    },
                                    None => {},
                                }
                            }
                        }
                    }
                }
            },
            None => {},
        }
        i += 1;
    }
    proof {
        assert forall|s: SearchState| #[trigger]
            reached(index@, *q, t + 1, s) && index.lattice.contains(s.position) implies entry_covers(
            index.lattice,
            next@,
            s,
        ) by {
            let from = lemma_reached_from(index@, *q, t as int, s);
            assert(entry_covers(index.lattice, layer@, from));
            let j = index.lattice.index_of(from.position);
            index.lattice.lemma_index_in_range(from.position);
            index.lattice.lemma_cell_at_index(from.position);
            let left = layer[j]->Some_0;
            let strong = node(index.lattice, j, t as int, left);
            assert(serves(index@, *q, next@, strong));
            let k = choose|k: int| 0 <= k < 7 && successor(index@, *q, from, #[trigger] moves()[k]) == Some(s);
            lemma_successor_monotone(index@, *q, strong, from, moves()[k]);
            let to = successor(index@, *q, strong, moves()[k])->Some_0;
            assert(entry_covers(index.lattice, next@, to));
        }
    }
    next
}

/// The least number of moves in which the agent reaches the goal, found by
/// trying every walk tick by tick: the result of `search`, by other means.
pub fn search_exhaustive(
    index: &OccupancyIndex,
    start: Vec3,
    goal: Vec3,
    horizon: u32,
    mode: Mode,
    resource_budget: Option<u64>,
) -> (r: Result<u32, Unreachable>)
    requires
        index.wf(),
        horizon <= index.horizon(),
    ensures
        match r {
            Ok(n) => shortest(index@, (Query { start, goal, horizon, mode, resource_budget }), n as int),
            Err(_) => no_route(index@, (Query { start, goal, horizon, mode, resource_budget })),
        },
{
    let q = Query { start, goal, horizon, mode, resource_budget };
    let init = q.initial_state();
    proof {
        assert forall|m: int| m < 0 implies !#[trigger] reachable_in(index@, q, m) by {
            if reachable_in(index@, q, m) {
                lemma_reachable_within_horizon(index@, q, m);
            }
        }
    }
    if q.is_goal(&init) {
        proof {
            let route = seq![init];
            assert(is_route(index@, q, route) && route.len() == 1);
        }
        return Ok(0);
    }
    proof {
        if reachable_in(index@, q, 0) {
            let route = choose|route: Seq<SearchState>| #[trigger] is_route(index@, q, route) && route.len() == 1;
            assert(route.last() == route[0]);
        }
    }
    if horizon == 0 {
        proof {
            assert forall|m: int| !#[trigger] reachable_in(index@, q, m) by {
                if reachable_in(index@, q, m) {
                    lemma_reachable_within_horizon(index@, q, m);
                }
            }
        }
        return Err(Unreachable);
    }
    let mut layer = first_layer(index, &q);
    let mut t: u32 = 1;
    loop
        invariant
            index.wf(),
            q == (Query { start, goal, horizon, mode, resource_budget }),
            horizon <= index.horizon(),
            1 <= t <= horizon,
            layer.len() == index.lattice.volume(),
            layer_sound(index@, q, t as int, layer@),
            layer_complete(index@, q, t as int, layer@),
            forall|m: int| m < t ==> !#[trigger] reachable_in(index@, q, m),
        decreases horizon - t,
    {
        if index.lattice.in_bounds(goal) {
            let g = index.lattice.vec3_to_idx(goal);
            match layer[g] {
                Some(left) => {
                    proof {
                        index.lattice.lemma_cell_at_index(goal);
                        let end = node(index.lattice, g as int, t as int, left);
                        assert(reached(index@, q, t as int, end));
                        let walk = choose|walk: Seq<SearchState>|
                            #[trigger] is_walk(index@, q, walk) && walk[0] == q.initial() && walk.len() == t + 1
                                && walk.last() == end;
                        assert(is_route(index@, q, walk));
                    }
                    return Ok(t);
                },
                None => {},
            }
        }
        proof {
            if reachable_in(index@, q, t as int) {
                let route = choose|route: Seq<SearchState>|
                    #[trigger] is_route(index@, q, route) && route.len() == t + 1;
                lemma_walk_ticks(index@, q, route, t as int);
                assert(reached(index@, q, t as int, route.last()));
                assert(entry_covers(index.lattice, layer@, route.last()));
            }
        }
        if t == horizon {
            proof {
                assert forall|m: int| !#[trigger] reachable_in(index@, q, m) by {
                    if reachable_in(index@, q, m) {
                        lemma_reachable_within_horizon(index@, q, m);
                    }
                }
            }
            return Err(Unreachable);
        }
        layer = next_layer(index, &q, t, &layer);
        t += 1;
    }
}

/// There is one least number of moves at most, and none where the goal is
/// unreachable: a search by heuristic and a search that tries every walk
/// agree on every input.
pub proof fn lemma_shortest_unique(field: Field, q: Query, a: int, b: int)
    requires
        shortest(field, q, a),
    ensures
        shortest(field, q, b) ==> a == b,
        !no_route(field, q),
{
}

} // verus!
