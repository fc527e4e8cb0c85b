//! The walks of a graph without cycles from a node to a target, in the
//! order of their nodes: the walk that is found for a number is the walk
//! that has that number, every walk has one, and the numbers rise as the
//! walks do.

use vstd::prelude::*;
use crate::staircase::{
    contracted, count_at, drawn, entry, is_walk, joined, joins, key, kth_path, kth_rest, lemma_kth_path_is_kth,
    lemma_none_lower, lemma_sorted_neighbors, lemma_sum_counts_any_order, lemma_sum_counts_grows,
    lemma_sum_counts_remove, lists_set, lower_counts, neighbors_of, pick, reached, rises, sorted_neighbors, sorts,
    sum_counts, tallied, walks_before, Node,
};

verus! {

/// In a rising list, the nodes from a place on that lie before the node at
/// a later place are the nodes between the two places.
proof fn lemma_lower_is_between(list: Seq<Node>, table: Seq<Option<u128>>, j: int, from: int)
    requires
        rises(list),
        0 <= from <= j < list.len(),
    ensures
        lower_counts(list, table, list[j], from) == sum_counts(table, list.subrange(from, j)),
    decreases j - from,
{
    if from == j {
        lemma_none_lower(list, table, j, from);
        assert(list.subrange(from, j) =~= Seq::<Node>::empty());
    } else {
        lemma_lower_is_between(list, table, j, from + 1);
        assert(key(list[from]) < key(list[j]));
        let part = list.subrange(from, j);
        lemma_sum_counts_remove(table, part, 0);
        assert(part.remove(0) =~= list.subrange(from + 1, j));
        assert(part[0] == list[from]);
    }
}

/// In a rising list, the walks of the nodes before a node together with
/// its own walks are no more than the walks of the nodes before a later
/// node, and no more than the walks of all nodes.
proof fn lemma_lower_grows(list: Seq<Node>, table: Seq<Option<u128>>, i: int, j: int)
    requires
        rises(list),
        0 <= i < list.len(),
        i < j <= list.len(),
    ensures
        j < list.len() ==> lower_counts(list, table, list[i], 0) + count_at(table, list[i]) <= lower_counts(
            list,
            table,
            list[j],
            0,
        ),
        lower_counts(list, table, list[i], 0) + count_at(table, list[i]) <= sum_counts(table, list),
{
    lemma_lower_is_between(list, table, i, 0);
    let upto = list.take(i + 1);
    assert(upto.drop_last() =~= list.subrange(0, i));
    assert(upto.last() == list[i]);
    assert(sum_counts(table, upto) == sum_counts(table, list.subrange(0, i)) + count_at(table, list[i]));
    lemma_sum_counts_grows(table, list, i + 1);
    if j < list.len() {
        lemma_lower_is_between(list, table, j, 0);
        let more = list.subrange(0, j);
        lemma_sum_counts_grows(table, more, i + 1);
        assert(more.take(i + 1) =~= upto);
    }
}

/// From a rising list the node at a place is picked for every number that
/// is one of its walks after the walks of the nodes before it.
proof fn lemma_pick_finds(list: Seq<Node>, table: Seq<Option<u128>>, j: int, left: int, from: int)
    requires
        rises(list),
        0 <= from <= j < list.len(),
        1 <= left <= count_at(table, list[j]),
    ensures
        pick(list, table, left + lower_counts(list, table, list[j], from), from) == Some((list[j], left)),
    decreases j - from,
{
    if from == j {
        lemma_none_lower(list, table, j, from);
    } else {
        lemma_pick_finds(list, table, j, left, from + 1);
        assert(key(list[from]) < key(list[j]));
    }
}

/// Whether every edge of a graph begins at one of its nodes.
pub open spec fn begins_at_nodes(edges: Map<(Node, Node), u8>, nodes: Set<Node>) -> bool {
    forall|a: Node, b: Node| #[trigger] edges.dom().contains((a, b)) ==> nodes.contains(a)
}

/// A graph whose edges begin at its nodes stays one when edges are drawn
/// into it.
pub proof fn lemma_drawn_begins_at_nodes(edges: Map<(Node, Node), u8>, nodes: Set<Node>, list: Seq<(Node, Node)>)
    requires
        begins_at_nodes(edges, nodes),
    ensures
        begins_at_nodes(drawn(edges, list), joined(nodes, list)),
    decreases list.len(),
{
    if list.len() > 0 {
        lemma_drawn_begins_at_nodes(edges, nodes, list.drop_last());
    }
}

/// A graph whose edges begin at its nodes stays one when an edge is added
/// from every node to every node that a single move reaches from it.
pub proof fn lemma_contracted_begins_at_nodes(
    before: Map<(Node, Node), u8>,
    moves: Seq<usize>,
    nodes: Set<Node>,
    after: Map<(Node, Node), u8>,
)
    requires
        begins_at_nodes(before, nodes),
        contracted(before, moves, nodes, after),
    ensures
        begins_at_nodes(after, reached(before, moves, nodes, nodes)),
{
    assert forall|a: Node, b: Node| #[trigger] after.dom().contains((a, b)) implies reached(
        before,
        moves,
        nodes,
        nodes,
    ).contains(a) by {
        if before.dom().contains((a, b)) {
            assert(nodes.contains(a));
        }
    }
}

/// Whether a table holds the numbers of walks to the target in a graph that
/// has no cycle, since its nodes can be put in order, and whose edges begin
/// at its nodes.
pub open spec fn counted(
    edges: Map<(Node, Node), u8>,
    nodes: Set<Node>,
    order: Seq<Node>,
    target: Node,
    table: Seq<Option<u128>>,
) -> bool {
    &&& sorts(order, edges, nodes)
    &&& tallied(edges, nodes, target, table)
    &&& begins_at_nodes(edges, nodes)
}

/// Whether a walk reaches the target at its end and not before.
pub open spec fn ends_at(walk: Seq<Node>, target: Node) -> bool {
    &&& walk.len() > 0
    &&& walk.last() == target
    &&& forall|i: int| 0 <= i < walk.len() - 1 ==> #[trigger] walk[i] != target
}

/// A walk of more than one node is, after its first node, a walk from its
/// second node to the same end.
proof fn lemma_walk_skip(edges: Map<(Node, Node), u8>, walk: Seq<Node>, target: Node)
    requires
        is_walk(edges, walk),
        walk.len() >= 2,
    ensures
        is_walk(edges, walk.skip(1)),
        walk.skip(1)[0] == walk[1],
        walk.skip(1).last() == walk.last(),
        walk.skip(1).len() == walk.len() - 1,
        edges.dom().contains((walk[0], walk[1])),
        ends_at(walk, target) ==> ends_at(walk.skip(1), target) && walk[0] != target,
{
    let rest = walk.skip(1);
    assert(edges.dom().contains((walk[0], walk[0int + 1])));
    assert forall|i: int| 0 <= i < rest.len() - 1 implies edges.dom().contains((#[trigger] rest[i], rest[i + 1])) by {
        assert(rest[i] == walk[i + 1]);
        assert(rest[i + 1] == walk[i + 1 + 1]);
        assert(edges.dom().contains((walk[i + 1], walk[i + 1 + 1])));
    }
    if ends_at(walk, target) {
        assert forall|i: int| 0 <= i < rest.len() - 1 implies #[trigger] rest[i] != target by {
            assert(rest[i] == walk[i + 1]);
        }
        assert(walk[0] != target);
    }
}

/// Whether a walk over edges of the graph reaches the target at its end
/// and not before.
#[verifier::opaque]
pub open spec fn reaches(edges: Map<(Node, Node), u8>, walk: Seq<Node>, target: Node) -> bool {
    is_walk(edges, walk) && ends_at(walk, target)
}

/// A walk that reaches the target is the target alone, or leads over an
/// edge from a node other than the target to a walk that reaches it.
proof fn lemma_reaches_unfolds(edges: Map<(Node, Node), u8>, walk: Seq<Node>, target: Node)
    requires
        reaches(edges, walk, target),
    ensures
        walk.len() >= 1,
        walk.len() == 1 ==> walk[0] == target,
        walk.len() >= 2 ==> {
            &&& walk[0] != target
            &&& edges.dom().contains((walk[0], walk[1]))
            &&& reaches(edges, walk.skip(1), target)
            &&& walk.skip(1)[0] == walk[1]
            &&& walk.skip(1).len() == walk.len() - 1
        },
{
    reveal(reaches);
    if walk.len() >= 2 {
        lemma_walk_skip(edges, walk, target);
    }
}

/// The walks that come before a walk of more than one node: those that
/// come before the rest of it, and those that go on from its first node to
/// a node before its second.
proof fn lemma_walks_before_unfolds(edges: Map<(Node, Node), u8>, table: Seq<Option<u128>>, walk: Seq<Node>)
    requires
        walk.len() >= 2,
    ensures
        walks_before(edges, table, walk) == walks_before(edges, table, walk.skip(1)) + lower_counts(
            sorted_neighbors(edges, walk[0]),
            table,
            walk[1],
            0,
        ),
{
}

/// The place of a node among the sorted neighbours of a node from which an
/// edge leads to it.
proof fn lemma_place_among_neighbors(edges: Map<(Node, Node), u8>, a: Node, b: Node) -> (j: int)
    requires
        edges.dom().contains((a, b)),
    ensures
        rises(sorted_neighbors(edges, a)),
        0 <= j < sorted_neighbors(edges, a).len(),
        sorted_neighbors(edges, a)[j] == b,
{
    let near = sorted_neighbors(edges, a);
    lemma_sorted_neighbors(edges, a);
    assert(near.contains(b));
    choose|j: int| 0 <= j < near.len() && near[j] == b
}

/// The nodes after a node on its `k`-th walk are the node picked among its
/// neighbours and the nodes after that one.
proof fn lemma_rest_step(
    edges: Map<(Node, Node), u8>,
    table: Seq<Option<u128>>,
    current: Node,
    target: Node,
    k: int,
    fuel: nat,
    next: Node,
    left: int,
    rest: Seq<Node>,
)
    requires
        current != target,
        fuel > 0,
        pick(sorted_neighbors(edges, current), table, k, 0) == Some((next, left)),
        kth_rest(edges, table, next, target, left, (fuel - 1) as nat) == Some(rest),
    ensures
        kth_rest(edges, table, current, target, k, fuel) == Some(seq![next] + rest),
{
}

/// A rising list names no node twice.
proof fn lemma_rising_once(list: Seq<Node>)
    requires
        rises(list),
    ensures
        list.no_duplicates(),
{
    assert forall|i: int, j: int| 0 <= i < list.len() && 0 <= j < list.len() && i != j implies list[i] != list[j] by {
        if i < j {
            assert(key(list[i]) < key(list[j]));
        } else {
            assert(key(list[j]) < key(list[i]));
        }
    }
}

/// The number of walks of a node other than the target is the sum of the
/// numbers of the nodes that its edges lead to.
proof fn lemma_count_is_sum(
    edges: Map<(Node, Node), u8>,
    nodes: Set<Node>,
    order: Seq<Node>,
    target: Node,
    table: Seq<Option<u128>>,
    n: Node,
)
    requires
        counted(edges, nodes, order, target, table),
        n != target,
        nodes.contains(n),
    ensures
        count_at(table, n) == sum_counts(table, sorted_neighbors(edges, n)),
{
    let near = sorted_neighbors(edges, n);
    lemma_sorted_neighbors(edges, n);
    lemma_rising_once(near);
    match entry(table, n) {
        Some(c) => {
            let list = choose|list: Seq<Node>| #[trigger]
                lists_set(list, neighbors_of(edges, n)) && c == sum_counts(table, list);
            assert forall|m: Node| list.contains(m) <==> near.contains(m) by {
                assert(neighbors_of(edges, n).contains(m) <==> edges.dom().contains((n, m)));
            }
            lemma_sum_counts_any_order(table, list, near);
        },
        None => {},
    }
}

/// A node from which a walk reaches the target has at least one walk in
/// the table, and fewer walks come before the walk than the node has.
proof fn lemma_rank_below_count(
    edges: Map<(Node, Node), u8>,
    nodes: Set<Node>,
    order: Seq<Node>,
    target: Node,
    table: Seq<Option<u128>>,
    walk: Seq<Node>,
)
    requires
        counted(edges, nodes, order, target, table),
        reaches(edges, walk, target),
    ensures
        walk.len() >= 1,
        walks_before(edges, table, walk) < count_at(table, walk[0]),
    decreases walk.len(),
{
    lemma_reaches_unfolds(edges, walk, target);
    if walk.len() >= 2 {
        lemma_rank_below_count(edges, nodes, order, target, table, walk.skip(1));
        lemma_walks_before_unfolds(edges, table, walk);
        let near = sorted_neighbors(edges, walk[0]);
        let j = lemma_place_among_neighbors(edges, walk[0], walk[1]);
        lemma_count_is_sum(edges, nodes, order, target, table, walk[0]);
        lemma_lower_grows(near, table, j, near.len() as int);
    }
}

/// The nodes that follow the first node of a walk are found for the number
/// of the walk, where the steps allowed are no fewer than the walk has.
proof fn lemma_rest_is_found(
    edges: Map<(Node, Node), u8>,
    nodes: Set<Node>,
    order: Seq<Node>,
    target: Node,
    table: Seq<Option<u128>>,
    walk: Seq<Node>,
    fuel: nat,
)
    requires
        counted(edges, nodes, order, target, table),
        reaches(edges, walk, target),
        fuel >= walk.len() - 1,
    ensures
        walk.len() >= 1,
        kth_rest(edges, table, walk[0], target, (walks_before(edges, table, walk) + 1) as int, fuel) == Some(
            walk.skip(1),
        ),
    decreases walk.len(),
{
    lemma_reaches_unfolds(edges, walk, target);
    if walk.len() >= 2 {
        let rest = walk.skip(1);
        lemma_rank_below_count(edges, nodes, order, target, table, rest);
        lemma_rest_is_found(edges, nodes, order, target, table, rest, (fuel - 1) as nat);
        lemma_walks_before_unfolds(edges, table, walk);
        let near = sorted_neighbors(edges, walk[0]);
        let j = lemma_place_among_neighbors(edges, walk[0], walk[1]);
        let left: int = (walks_before(edges, table, rest) + 1) as int;
        lemma_pick_finds(near, table, j, left, 0);
        lemma_rest_step(
            edges,
            table,
            walk[0],
            target,
            (walks_before(edges, table, walk) + 1) as int,
            fuel,
            walk[1],
            left,
            rest.skip(1),
        );
        assert(seq![walk[1]] + rest.skip(1) =~= rest);
    } else {
        assert(walk.skip(1) =~= Seq::<Node>::empty());
    }
}

/// The place of a node in an order.
pub open spec fn place(order: Seq<Node>, n: Node) -> int {
    choose|i: int| 0 <= i < order.len() && order[i] == n
}

/// Along a walk the places of the nodes in the order rise, as far as an
/// edge of the walk begins at them.
proof fn lemma_walk_climbs(
    edges: Map<(Node, Node), u8>,
    nodes: Set<Node>,
    order: Seq<Node>,
    walk: Seq<Node>,
    i: int,
    j: int,
)
    requires
        sorts(order, edges, nodes),
        begins_at_nodes(edges, nodes),
        is_walk(edges, walk),
        0 <= i <= j < walk.len() - 1,
    ensures
        order.contains(walk[i]),
        order.contains(walk[j]),
        place(order, walk[j]) >= place(order, walk[i]) + (j - i),
        0 <= place(order, walk[j]) < order.len(),
    decreases j - i,
{
    assert(edges.dom().contains((walk[i], walk[i + 1])));
    assert(edges.dom().contains((walk[j], walk[j + 1])));
    assert(nodes.contains(walk[i]) && nodes.contains(walk[j]));
    if i < j {
        lemma_walk_climbs(edges, nodes, order, walk, i, j - 1);
        assert(edges.dom().contains((walk[j - 1], walk[j - 1 + 1])));
        let p = place(order, walk[j - 1]);
        let q = place(order, walk[j]);
        assert(edges.dom().contains((order[p], order[q])));
    }
}

/// An order that names no node twice names no more nodes than there are.
proof fn lemma_order_is_short(order: Seq<Node>)
    requires
        order.no_duplicates(),
    ensures
        order.len() <= 65536,
{
    let keys = Seq::new(order.len(), |i: int| key(order[i]));
    assert forall|i: int, j: int| 0 <= i < keys.len() && 0 <= j < keys.len() && i != j implies keys[i] != keys[j] by {
        assert(order[i] != order[j]);
    }
    keys.unique_seq_to_set();
    vstd::set_lib::lemma_int_range(0, 65536);
    assert forall|k: int| keys.to_set().contains(k) implies vstd::set_lib::set_int_range(0, 65536).contains(k) by {
        let i = choose|i: int| 0 <= i < keys.len() && keys[i] == k;
        assert(keys[i] == key(order[i]));
    }
    vstd::set_lib::lemma_len_subset(keys.to_set(), vstd::set_lib::set_int_range(0, 65536));
}

/// In a graph without cycles a walk comes to its last node at its end and
/// not before.
proof fn lemma_end_comes_last(
    edges: Map<(Node, Node), u8>,
    nodes: Set<Node>,
    order: Seq<Node>,
    walk: Seq<Node>,
    i: int,
)
    requires
        sorts(order, edges, nodes),
        begins_at_nodes(edges, nodes),
        is_walk(edges, walk),
        0 <= i < walk.len() - 1,
    ensures
        walk[i] != walk.last(),
{
    let m = walk.len() - 2;
    lemma_walk_climbs(edges, nodes, order, walk, i, m);
    if walk[i] == walk.last() {
        assert(edges.dom().contains((walk[m], walk[m + 1])));
        let p = place(order, walk[m]);
        let q = place(order, walk[i]);
        assert(edges.dom().contains((order[p], order[q])));
    }
}

/// In a graph without cycles a walk has no more edges than there are
/// nodes.
proof fn lemma_walk_is_short(edges: Map<(Node, Node), u8>, nodes: Set<Node>, order: Seq<Node>, walk: Seq<Node>)
    requires
        sorts(order, edges, nodes),
        begins_at_nodes(edges, nodes),
        is_walk(edges, walk),
    ensures
        walk.len() - 1 <= 65536,
{
    lemma_order_is_short(order);
    if walk.len() >= 2 {
        lemma_walk_climbs(edges, nodes, order, walk, 0, walk.len() - 2);
    }
}

/// A walk that comes to the target at its end and not before reaches it.
proof fn lemma_reaches_folds(edges: Map<(Node, Node), u8>, walk: Seq<Node>, target: Node)
    requires
        is_walk(edges, walk),
        walk.last() == target,
        forall|i: int| 0 <= i < walk.len() - 1 ==> #[trigger] walk[i] != target,
    ensures
        reaches(edges, walk, target),
{
    reveal(reaches);
}

/// In a graph without cycles a walk to the target reaches it at its end and
/// not before, and has no more edges than there are nodes.
proof fn lemma_walk_reaches(
    edges: Map<(Node, Node), u8>,
    nodes: Set<Node>,
    order: Seq<Node>,
    target: Node,
    walk: Seq<Node>,
)
    requires
        sorts(order, edges, nodes),
        begins_at_nodes(edges, nodes),
        is_walk(edges, walk),
        walk.last() == target,
    ensures
        reaches(edges, walk, target),
        walk.len() - 1 <= 65536,
{
    lemma_walk_is_short(edges, nodes, order, walk);
    assert forall|i: int| 0 <= i < walk.len() - 1 implies #[trigger] walk[i] != target by {
        lemma_end_comes_last(edges, nodes, order, walk, i);
    }
    lemma_reaches_folds(edges, walk, target);
}

/// Whether a row of nodes comes before another in the order of their
/// nodes: where they first differ the first has the lesser node, or the
/// first ends there.
pub open spec fn comes_before(a: Seq<Node>, b: Seq<Node>) -> bool {
    exists|i: int|
        #![trigger a.take(i)]
        0 <= i <= a.len() && i < b.len() && a.take(i) == b.take(i) && (i == a.len() || key(a[i]) < key(b[i]))
}

/// Where a walk that reaches the target ends, no other that reaches it goes
/// on.
proof fn lemma_reaches_ends(edges: Map<(Node, Node), u8>, walk: Seq<Node>, target: Node, j: int)
    requires
        reaches(edges, walk, target),
        0 <= j < walk.len(),
    ensures
        j == walk.len() - 1 ==> walk[j] == target,
        j < walk.len() - 1 ==> walk[j] != target,
{
    reveal(reaches);
}

/// Of two walks from one node that reach the target, the one that comes
/// first where they differ at place `i` has fewer walks before it.
proof fn lemma_order_at(
    edges: Map<(Node, Node), u8>,
    nodes: Set<Node>,
    order: Seq<Node>,
    target: Node,
    table: Seq<Option<u128>>,
    a: Seq<Node>,
    b: Seq<Node>,
    i: int,
)
    requires
        counted(edges, nodes, order, target, table),
        reaches(edges, a, target),
        reaches(edges, b, target),
        a.len() >= 1,
        a[0] == b[0],
        0 <= i <= a.len(),
        i < b.len(),
        a.take(i) == b.take(i),
        i == a.len() || key(a[i]) < key(b[i]),
    ensures
        walks_before(edges, table, a) < walks_before(edges, table, b),
    decreases i,
{
    lemma_reaches_unfolds(edges, a, target);
    lemma_reaches_unfolds(edges, b, target);
    if i == 0 {
    } else if i == a.len() {
        assert(a.take(i)[i - 1] == b.take(i)[i - 1]);
        lemma_reaches_ends(edges, a, target, i - 1);
        lemma_reaches_ends(edges, b, target, i - 1);
    } else {
        assert(a.take(i)[0] == b.take(i)[0]);
        let near = sorted_neighbors(edges, a[0]);
        lemma_walks_before_unfolds(edges, table, a);
        lemma_walks_before_unfolds(edges, table, b);
        if i == 1 {
            let ja = lemma_place_among_neighbors(edges, a[0], a[1]);
            let jb = lemma_place_among_neighbors(edges, a[0], b[1]);
            if ja >= jb {
                if ja > jb {
                    assert(key(near[jb]) < key(near[ja]));
                }
            }
            lemma_lower_grows(near, table, ja, jb);
            lemma_rank_below_count(edges, nodes, order, target, table, a.skip(1));
        } else {
            assert(a.take(i)[1] == b.take(i)[1]);
            let a2 = a.skip(1);
            let b2 = b.skip(1);
            let a3 = a2.take(i - 1);
            let b3 = b2.take(i - 1);
            assert(a3 =~= b3) by {
                assert forall|k: int| 0 <= k < i - 1 implies #[trigger] a3[k] == b3[k] by {
                    assert(a.take(i)[k + 1] == b.take(i)[k + 1]);
                }
            }
            lemma_order_at(edges, nodes, order, target, table, a2, b2, i - 1);
        }
    }
}

/// Every walk from the source to the target is found for its number: the
/// number of walks that come before it, and one.
pub proof fn lemma_every_walk_has_its_number(
    edges: Map<(Node, Node), u8>,
    nodes: Set<Node>,
    order: Seq<Node>,
    target: Node,
    table: Seq<Option<u128>>,
    source: Node,
    walk: Seq<Node>,
)
    requires
        counted(edges, nodes, order, target, table),
        joins(edges, walk, source, target),
    ensures
        walks_before(edges, table, walk) < count_at(table, source),
        kth_path(edges, table, source, target, (walks_before(edges, table, walk) + 1) as int) == Some(walk),
{
    lemma_walk_reaches(edges, nodes, order, target, walk);
    lemma_rank_below_count(edges, nodes, order, target, table, walk);
    lemma_rest_is_found(edges, nodes, order, target, table, walk, 65536);
    lemma_reaches_unfolds(edges, walk, target);
    if source == target {
        assert(walk =~= seq![source]);
    } else {
        assert(seq![source] + walk.skip(1) =~= walk);
    }
}

/// Of two walks from the source to the target, the one that comes first in
/// the order of their nodes has fewer walks before it: the numbers of the
/// walks rise as the walks do.
pub proof fn lemma_numbers_rise_with_walks(
    edges: Map<(Node, Node), u8>,
    nodes: Set<Node>,
    order: Seq<Node>,
    target: Node,
    table: Seq<Option<u128>>,
    source: Node,
    a: Seq<Node>,
    b: Seq<Node>,
)
    requires
        counted(edges, nodes, order, target, table),
        joins(edges, a, source, target),
        joins(edges, b, source, target),
        comes_before(a, b),
    ensures
        walks_before(edges, table, a) < walks_before(edges, table, b),
{
    lemma_walk_reaches(edges, nodes, order, target, a);
    lemma_walk_reaches(edges, nodes, order, target, b);
    let i = choose|i: int|
        #![trigger a.take(i)]
        0 <= i <= a.len() && i < b.len() && a.take(i) == b.take(i) && (i == a.len() || key(a[i]) < key(b[i]));
    lemma_order_at(edges, nodes, order, target, table, a, b, i);
}

/// Of two rows of nodes that agree on their first `i` nodes and are not the
/// same, one comes before the other.
proof fn lemma_first_difference(a: Seq<Node>, b: Seq<Node>, i: int)
    requires
        a != b,
        0 <= i <= a.len(),
        i <= b.len(),
        a.take(i) == b.take(i),
    ensures
        comes_before(a, b) || comes_before(b, a),
    decreases a.len() - i,
{
    if i == a.len() && i == b.len() {
        assert(a.take(i) =~= a);
        assert(b.take(i) =~= b);
    } else if i == a.len() {
        assert(0 <= i <= a.len() && i < b.len() && a.take(i) == b.take(i) && (i == a.len() || key(a[i]) < key(b[i])));
    } else if i == b.len() {
        assert(0 <= i <= b.len() && i < a.len() && b.take(i) == a.take(i) && (i == b.len() || key(b[i]) < key(a[i])));
    } else if key(a[i]) < key(b[i]) {
        assert(0 <= i <= a.len() && i < b.len() && a.take(i) == b.take(i) && (i == a.len() || key(a[i]) < key(b[i])));
    } else if key(b[i]) < key(a[i]) {
        assert(0 <= i <= b.len() && i < a.len() && b.take(i) == a.take(i) && (i == b.len() || key(b[i]) < key(a[i])));
    } else {
        assert(a[i] == b[i]);
        let a2 = a.take(i + 1);
        let b2 = b.take(i + 1);
        assert(a2 =~= b2) by {
            assert forall|k: int| 0 <= k < i + 1 implies #[trigger] a2[k] == b2[k] by {
                if k < i {
                    assert(a.take(i)[k] == b.take(i)[k]);
                }
            }
        }
        lemma_first_difference(a, b, i + 1);
    }
}

/// The walks that are found for two numbers come in the order of the
/// numbers. With the two laws before this one: the walks from the source to
/// the target and the numbers from one to the number of walks of the source
/// stand one for one, in the same order, so that exactly `k` less one walks
/// come before the `k`-th.
pub proof fn lemma_kth_walks_in_order(
    edges: Map<(Node, Node), u8>,
    nodes: Set<Node>,
    order: Seq<Node>,
    target: Node,
    table: Seq<Option<u128>>,
    source: Node,
    j: int,
    k: int,
)
    requires
        counted(edges, nodes, order, target, table),
        j < k,
        kth_path(edges, table, source, target, j) is Some,
        kth_path(edges, table, source, target, k) is Some,
    ensures
        comes_before(kth_path(edges, table, source, target, j)->Some_0, kth_path(edges, table, source, target, k)->Some_0),
{
    let a = kth_path(edges, table, source, target, j)->Some_0;
    let b = kth_path(edges, table, source, target, k)->Some_0;
    lemma_kth_path_is_kth(edges, table, source, target, j);
    lemma_kth_path_is_kth(edges, table, source, target, k);
    assert(a.take(0) =~= b.take(0));
    lemma_first_difference(a, b, 0);
    if comes_before(b, a) {
        lemma_numbers_rise_with_walks(edges, nodes, order, target, table, source, b, a);
    }
}

} // verus!
