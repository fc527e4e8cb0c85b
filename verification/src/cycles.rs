//! Towns joined by one-way roads: the cheapest ways from a town, and the
//! dearest round trip.

use vstd::prelude::*;
use vstd::string::StringSliceAdditionalSpecFns;
use crate::text::{lines, lines_spec, parse_unsigned, parse_unsigned_spec, same_bytes, split_once, split_once_spec};

verus! {

/// The roads from one town: each leads to a town, by its number, at a cost.
pub type Exits = Vec<(usize, u64)>;

/// Towns and the roads between them. A town's number is its place in
/// `names`, and `next` holds the roads from it.
pub struct Roads<'a> {
    pub names: Vec<&'a [u8]>,
    pub next: Vec<Exits>,
}

/// What roads are: for each town the roads from it.
pub type RoadMap = Seq<Seq<(usize, u64)>>;

/// The roads that vectors hold.
pub open spec fn road_map(next: Seq<Exits>) -> RoadMap {
    Seq::new(next.len(), |i: int| next[i]@)
}

impl<'a> Roads<'a> {
    /// The roads of each town.
    pub open spec fn view(&self) -> RoadMap {
        road_map(self.next@)
    }

    /// The names of the towns.
    pub open spec fn names_view(&self) -> Seq<Seq<u8>> {
        Seq::new(self.names.len() as nat, |i: int| self.names[i]@)
    }

    /// Every town has a name and its roads, and every road leads to a town.
    pub open spec fn wf(&self) -> bool {
        self.names.len() == self.next.len() && closed(self@)
    }
}

/// Whether every road leads to a town.
pub open spec fn closed(map: RoadMap) -> bool {
    forall|a: int, k: int| 0 <= a < map.len() && 0 <= k < map[a].len() ==> (#[trigger] map[a][k]).0 < map.len()
}

/// The number of the first town with the given name.
pub open spec fn town(names: Seq<Seq<u8>>, name: Seq<u8>, from: int) -> Option<int>
    decreases names.len() - from,
{
    if from < 0 || from >= names.len() {
        None
    } else if names[from] == name {
        Some(from)
    } else {
        town(names, name, from + 1)
    }
}

/// The number of the first town with the given name.
pub fn find_town(names: &Vec<&[u8]>, name: &[u8]) -> (r: Option<usize>)
    ensures
        match r {
            Some(i) => town(Seq::new(names.len() as nat, |i: int| names[i]@), name@, 0) == Some(i as int) && i
                < names.len(),
            None => town(Seq::new(names.len() as nat, |i: int| names[i]@), name@, 0) is None,
        },
{
    let ghost all = Seq::new(names.len() as nat, |i: int| names[i]@);
    let mut i: usize = 0;
    while i < names.len()
        invariant
            i <= names.len(),
            all == Seq::new(names.len() as nat, |i: int| names[i]@),
            town(all, name@, 0) == town(all, name@, i as int),
        decreases names.len() - i,
    {
        if same_bytes(names[i], name) {
            return Some(i);
        }
        i += 1;
    }
    None
}

/// What a line of the form `from -> to | cost` writes.
pub open spec fn road_spec(line: Seq<u8>) -> Option<(Seq<u8>, Seq<u8>, u64)> {
    match split_once_spec(line, seq![0x20u8, 0x7cu8, 0x20u8]) {
        Some((ends, cost)) => match split_once_spec(ends, seq![0x20u8, 0x2du8, 0x3eu8, 0x20u8]) {
            Some((from, to)) => match parse_unsigned_spec(cost, u64::MAX as nat) {
                Some(c) => Some((from, to, c as u64)),
                None => None,
            },
            None => None,
        },
        None => None,
    }
}

/// Reads a line of the form `from -> to | cost`.
pub fn parse_road<'a>(line: &'a [u8]) -> (r: Option<(&'a [u8], &'a [u8], u64)>)
    ensures
        match r {
            Some((from, to, c)) => road_spec(line@) == Some((from@, to@, c)),
            None => road_spec(line@) is None,
        },
{
    let bar: [u8; 3] = [0x20, 0x7c, 0x20];
    assert(bar@ =~= seq![0x20u8, 0x7cu8, 0x20u8]);
    let arrow: [u8; 4] = [0x20, 0x2d, 0x3e, 0x20];
    assert(arrow@ =~= seq![0x20u8, 0x2du8, 0x3eu8, 0x20u8]);
    match split_once(line, bar.as_slice()) {
        Some((ends, cost)) => match split_once(ends, arrow.as_slice()) {
            Some((from, to)) => match parse_unsigned(cost, u64::MAX) {
                Some(c) => Some((from, to, c)),
                None => None,
            },
            None => None,
        },
        None => None,
    }
}

/// The towns and roads of a map, as a text of roads builds them: the names,
/// and for each town the roads from it.
pub struct Atlas {
    pub names: Seq<Seq<u8>>,
    pub next: RoadMap,
}

/// An atlas with one more town, if it has none of the name yet.
pub open spec fn with_town(atlas: Atlas, name: Seq<u8>) -> Atlas {
    if town(atlas.names, name, 0) is Some {
        atlas
    } else {
        Atlas { names: atlas.names.push(name), next: atlas.next.push(Seq::empty()) }
    }
}

/// An atlas with one more road; towns that it has not yet are added, first
/// the one that the road leaves.
pub open spec fn with_road(atlas: Atlas, from: Seq<u8>, to: Seq<u8>, cost: u64) -> Atlas {
    let both = with_town(with_town(atlas, from), to);
    let a = town(both.names, from, 0)->Some_0;
    let b = town(both.names, to, 0)->Some_0;
    Atlas { names: both.names, next: both.next.update(a, both.next[a].push((b as usize, cost))) }
}

/// The atlas of the first `n` lines of a text, if each writes a road.
pub open spec fn atlas_spec(rows: Seq<Seq<u8>>, n: int) -> Option<Atlas>
    decreases n,
{
    if n <= 0 {
        Some(Atlas { names: Seq::empty(), next: Seq::empty() })
    } else {
        match (atlas_spec(rows, n - 1), road_spec(rows[n - 1])) {
            (Some(atlas), Some((from, to, cost))) => Some(with_road(atlas, from, to, cost)),
            _ => None,
        }
    }
}

/// Once a line writes no road, no atlas comes of the rest.
proof fn lemma_atlas_fails(rows: Seq<Seq<u8>>, k: int, n: int)
    requires
        0 <= k <= n,
        atlas_spec(rows, k) is None,
    ensures
        atlas_spec(rows, n) is None,
    decreases n - k,
{
    if k < n {
        lemma_atlas_fails(rows, k, n - 1);
    }
}

/// A town that is found stays found, at its place, when a town is added.
proof fn lemma_town_stays(names: Seq<Seq<u8>>, name: Seq<u8>, other: Seq<u8>, from: int)
    requires
        0 <= from,
    ensures
        match town(names, name, from) {
            Some(i) => town(names.push(other), name, from) == Some(i) && from <= i < names.len(),
            None => town(names.push(other), name, from) == if other == name && from <= names.len() {
                Some(names.len() as int)
            } else {
                None
            },
        },
    decreases names.len() - from,
{
    let more = names.push(other);
    if from < names.len() {
        assert(more[from] == names[from]);
        if names[from] != name {
            lemma_town_stays(names, name, other, from + 1);
        }
    } else if from == names.len() {
        assert(more[from] == other);
        assert(town(more, name, from + 1) is None);
    }
}

/// The number of the town of a name in the roads, which gets the town if it
/// has not got it.
fn town_of<'a>(roads: &mut Roads<'a>, name: &'a [u8]) -> (r: usize)
    requires
        old(roads).wf(),
    ensures
        final(roads).wf(),
        (Atlas { names: final(roads).names_view(), next: final(roads)@ }) == with_town(
            (Atlas { names: old(roads).names_view(), next: old(roads)@ }),
            name@,
        ),
        town(final(roads).names_view(), name@, 0) == Some(r as int),
        r < final(roads).names.len(),
{
    match find_town(&roads.names, name) {
        Some(i) => i,
        None => {
            let ghost before = roads.names_view();
            let ghost before_next = roads@;
            roads.names.push(name);
            roads.next.push(Vec::new());
            proof {
                assert(roads.names_view() =~= before.push(name@));
                assert(roads@ =~= before_next.push(Seq::empty()));
                lemma_town_stays(before, name@, name@, 0);
                assert forall|a: int, k: int| 0 <= a < roads@.len() && 0 <= k < roads@[a].len() implies (
                #[trigger] roads@[a][k]).0 < roads@.len() by {
                    assert(roads@[a] == before_next[a]);
                    assert(before_next[a][k].0 < before_next.len());
                }
            }
            roads.names.len() - 1
        },
    }
}

/// Reads a text of roads, one to a line.
pub fn parse_roads<'a>(input: &'a [u8]) -> (r: Option<Roads<'a>>)
    ensures
        match r {
            Some(roads) => roads.wf() && atlas_spec(lines_spec(input@), lines_spec(input@).len() as int) == Some(
                Atlas { names: roads.names_view(), next: roads@ },
            ),
            None => atlas_spec(lines_spec(input@), lines_spec(input@).len() as int) is None,
        },
{
    let rows = lines(input);
    let ghost spec_rows = lines_spec(input@);
    let mut roads = Roads { names: Vec::new(), next: Vec::new() };
    assert(roads.names_view() =~= Seq::<Seq<u8>>::empty());
    assert(roads@ =~= Seq::<Seq<(usize, u64)>>::empty());
    let mut i: usize = 0;
    while i < rows.len()
        invariant
            i <= rows.len(),
            spec_rows == lines_spec(input@),
            rows.len() == spec_rows.len(),
            forall|k: int| 0 <= k < rows.len() ==> (#[trigger] rows[k])@ == spec_rows[k],
            roads.wf(),
            atlas_spec(spec_rows, i as int) == Some(Atlas { names: roads.names_view(), next: roads@ }),
        decreases rows.len() - i,
    {
        match parse_road(rows[i]) {
            Some((from, to, cost)) => {
                let ghost start = Atlas { names: roads.names_view(), next: roads@ };
                let a = town_of(&mut roads, from);
                let ghost mid = Atlas { names: roads.names_view(), next: roads@ };
                let b = town_of(&mut roads, to);
                proof {
                    lemma_town_stays(mid.names, from@, to@, 0);
                }
                let ghost both_next = roads@;
                roads.next[a].push((b, cost));
                proof {
                    assert(roads@ =~= both_next.update(a as int, both_next[a as int].push((b, cost))));
                    assert forall|x: int, k: int| 0 <= x < roads@.len() && 0 <= k < roads@[x].len() implies (
                    #[trigger] roads@[x][k]).0 < roads@.len() by {
                        if x != a || k < both_next[a as int].len() {
                            assert(roads@[x][k] == both_next[x][k]);
                            assert(both_next[x][k].0 < both_next.len());
                        }
                    }
                }
            },
            None => {
                proof {
                    lemma_atlas_fails(spec_rows, i + 1, spec_rows.len() as int);
                }
                return None;
            },
        }
        i += 1;
    }
    Some(roads)
}

/// A trip: one road after another, each given by the town it leads to and
/// its cost, the first from town `a`.
pub open spec fn is_trip(map: RoadMap, a: int, trip: Seq<(usize, u64)>) -> bool
    decreases trip.len(),
{
    if trip.len() == 0 {
        true
    } else {
        let before = trip.drop_last();
        let from = if before.len() == 0 {
            a
        } else {
            before.last().0 as int
        };
        &&& is_trip(map, a, before)
        &&& 0 <= from < map.len()
        &&& map[from].contains(trip.last())
    }
}

/// The cost of a trip: that of its roads together, or one for each road.
pub open spec fn trip_cost(trip: Seq<(usize, u64)>, unit: bool) -> nat
    decreases trip.len(),
{
    if trip.len() == 0 {
        0
    } else {
        trip_cost(trip.drop_last(), unit) + if unit {
            1nat
        } else {
            trip.last().1 as nat
        }
    }
}

/// Whether a trip of one road or more leads from `a` to `b`.
pub open spec fn leads(map: RoadMap, a: int, b: int, trip: Seq<(usize, u64)>) -> bool {
    trip.len() > 0 && is_trip(map, a, trip) && trip.last().0 == b
}

/// Whether `c` is the least cost of a trip from `a` to `b`.
pub open spec fn least_cost(map: RoadMap, unit: bool, a: int, b: int, c: nat) -> bool {
    &&& exists|trip: Seq<(usize, u64)>| #[trigger] leads(map, a, b, trip) && trip_cost(trip, unit) == c
    &&& forall|trip: Seq<(usize, u64)>| #[trigger] leads(map, a, b, trip) ==> trip_cost(trip, unit) >= c
}

/// Whether a list gives every town but `a` that a trip from `a` reaches,
/// each once, with the least cost of such a trip.
pub open spec fn lists_costs(list: Seq<(usize, u128)>, map: RoadMap, unit: bool, a: int) -> bool {
    &&& forall|i: int|
        0 <= i < list.len() ==> (#[trigger] list[i]).0 != a && least_cost(map, unit, a, list[i].0 as int, list[i].1 as nat)
    &&& forall|i: int, j: int| 0 <= i < j < list.len() ==> (#[trigger] list[i]).0 != (#[trigger] list[j]).0
    &&& forall|b: int, c: nat|
        b != a && #[trigger] least_cost(map, unit, a, b, c) ==> exists|i: int|
            0 <= i < list.len() && (#[trigger] list[i]).0 == b
}

/// The roads from a town, each with its cost or with one; a town that there
/// is not has none.
pub fn exits(next: &Vec<Exits>, unit: bool, at: usize) -> (r: Vec<(usize, u128)>)
    ensures
        at >= next.len() ==> r.len() == 0,
        at < next.len() ==> r.len() == next[at as int].len() && forall|k: int|
            0 <= k < r.len() ==> (#[trigger] r[k]).0 == next[at as int][k].0 && r[k].1 == if unit {
                1
            } else {
                next[at as int][k].1 as int
            },
{
    let mut out: Vec<(usize, u128)> = Vec::new();
    if at < next.len() {
        let roads = &next[at];
        let mut k: usize = 0;
        while k < roads.len()
            invariant
                k <= roads.len(),
                out.len() == k,
                forall|j: int|
                    0 <= j < k ==> (#[trigger] out[j]).0 == roads[j].0 && out[j].1 == if unit {
                        1
                    } else {
                        roads[j].1 as int
                    },
            decreases roads.len() - k,
        {
            let cost: u128 = if unit {
                1
            } else {
                roads[k].1 as u128
            };
            out.push((roads[k].0, cost));
            k += 1;
        }
    }
    out
}

/// `pathfinding`'s `dijkstra_all`, from town `a` over `exits`: every town
/// but `a` that a trip reaches, with the least cost of such a trip.
#[verifier::external_body]
fn cheapest_trips(next: &Vec<Exits>, unit: bool, a: usize) -> (r: Vec<(usize, u128)>)
    ensures
        lists_costs(r@, road_map(next@), unit, a as int),
{
    pathfinding::directed::dijkstra::dijkstra_all(&a, |at| exits(next, unit, *at)).into_iter().map(
        |found| (found.0, found.1.1),
    ).collect()
}

/// The three greatest of the costs, greatest first; where there are fewer,
/// `None` stands for the missing ones.
pub open spec fn three_greatest(costs: Seq<(usize, u128)>) -> (Option<u128>, Option<u128>, Option<u128>)
    decreases costs.len(),
{
    if costs.len() == 0 {
        (None, None, None)
    } else {
        let (a, b, c) = three_greatest(costs.drop_last());
        let v = costs.last().1;
        if a is None || v > a->Some_0 {
            (Some(v), a, b)
        } else if b is None || v > b->Some_0 {
            (a, Some(v), b)
        } else if c is None || v > c->Some_0 {
            (a, b, Some(v))
        } else {
            (a, b, c)
        }
    }
}

/// Whether `v` is the cost at place `p`, or, where there are no more than
/// `rank` costs, none.
pub open spec fn held(costs: Seq<(usize, u128)>, v: Option<u128>, p: int, rank: int) -> bool {
    if costs.len() > rank {
        0 <= p < costs.len() && v == Some(costs[p].1)
    } else {
        v is None
    }
}

/// Whether three costs in falling order are the costs at three different
/// places, and the cost at every other place is no more than the third.
/// Where there are fewer than three costs, the last of the three are none.
pub open spec fn are_top(
    costs: Seq<(usize, u128)>,
    v: (Option<u128>, Option<u128>, Option<u128>),
    p: (int, int, int),
) -> bool {
    &&& held(costs, v.0, p.0, 0)
    &&& held(costs, v.1, p.1, 1)
    &&& held(costs, v.2, p.2, 2)
    &&& costs.len() >= 2 ==> p.0 != p.1 && v.0->Some_0 >= v.1->Some_0
    &&& costs.len() >= 3 ==> p.0 != p.2 && p.1 != p.2 && v.1->Some_0 >= v.2->Some_0
    &&& forall|k: int|
        0 <= k < costs.len() && costs.len() >= 3 && k != p.0 && k != p.1 && k != p.2 ==> (#[trigger] costs[k]).1
            <= v.2->Some_0
}

/// The three greatest costs are the costs at three different places, in
/// falling order, and the cost at every other place is no more than the
/// third.
pub proof fn lemma_three_greatest_top(costs: Seq<(usize, u128)>) -> (p: (int, int, int))
    ensures
        are_top(costs, three_greatest(costs), p),
    decreases costs.len(),
{
    if costs.len() == 0 {
        (0, 0, 0)
    } else {
        let rest = costs.drop_last();
        let last = costs.len() - 1;
        let q = lemma_three_greatest_top(rest);
        let (a, b, c) = three_greatest(rest);
        let v = costs.last().1;
        assert forall|k: int| 0 <= k < rest.len() implies rest[k] == costs[k] by {}
        let p = if a is None || v > a->Some_0 {
            (last, q.0, q.1)
        } else if b is None || v > b->Some_0 {
            (q.0, last, q.1)
        } else if c is None || v > c->Some_0 {
            (q.0, q.1, last)
        } else {
            q
        };
        let w = three_greatest(costs);
        assert forall|k: int|
            0 <= k < costs.len() && costs.len() >= 3 && k != p.0 && k != p.1 && k != p.2 implies (#[trigger] costs[k]).1
            <= w.2->Some_0 by {
            if k < last {
                assert(rest[k] == costs[k]);
                if rest.len() >= 3 && k != q.0 && k != q.1 && k != q.2 {
                    assert(rest[k].1 <= c->Some_0);
                }
            }
        }
        p
    }
}

/// Three costs that are the greatest at some places are the same as three
/// that are the greatest at other places.
pub proof fn lemma_top_are_one(
    costs: Seq<(usize, u128)>,
    v: (Option<u128>, Option<u128>, Option<u128>),
    p: (int, int, int),
    w: (Option<u128>, Option<u128>, Option<u128>),
    q: (int, int, int),
)
    requires
        are_top(costs, v, p),
        are_top(costs, w, q),
    ensures
        v == w,
{
    if costs.len() >= 3 {
        assert(costs[p.0].1 == v.0->Some_0 && costs[p.1].1 == v.1->Some_0 && costs[p.2].1 == v.2->Some_0);
        assert(costs[q.0].1 == w.0->Some_0 && costs[q.1].1 == w.1->Some_0 && costs[q.2].1 == w.2->Some_0);
    } else if costs.len() == 2 {
        assert(costs[p.0].1 == v.0->Some_0 && costs[p.1].1 == v.1->Some_0);
        assert(costs[q.0].1 == w.0->Some_0 && costs[q.1].1 == w.1->Some_0);
    } else if costs.len() == 1 {
        assert(costs[p.0].1 == v.0->Some_0);
    }
}

/// Whether two lists hold the same costs, place for place: `to` gives for
/// every place of `other` a place of `costs` with the same cost, and `back`
/// the way back.
pub open spec fn matched(costs: Seq<(usize, u128)>, other: Seq<(usize, u128)>, to: Seq<int>, back: Seq<int>) -> bool {
    &&& to.len() == other.len()
    &&& back.len() == costs.len()
    &&& forall|i: int|
        0 <= i < other.len() ==> 0 <= #[trigger] to[i] < costs.len() && back[to[i]] == i && other[i].1
            == costs[to[i]].1
    &&& forall|j: int| 0 <= j < costs.len() ==> 0 <= #[trigger] back[j] < other.len() && to[back[j]] == j
}

/// The three greatest costs, and so their product, are the same in two
/// lists that hold the same costs.
pub proof fn lemma_three_greatest_any_order(
    costs: Seq<(usize, u128)>,
    other: Seq<(usize, u128)>,
    to: Seq<int>,
    back: Seq<int>,
)
    requires
        matched(costs, other, to, back),
    ensures
        three_greatest(other) == three_greatest(costs),
        top_product_spec(other) == top_product_spec(costs),
{
    let p = lemma_three_greatest_top(costs);
    let q = lemma_three_greatest_top(other);
    let v = three_greatest(costs);
    let n = costs.len();
    let m = other.len();
    // as many costs here as there, as far as three are counted
    if n >= 1 {
        assert(0 <= back[0] < m);
    }
    if n >= 2 {
        assert(to[back[0]] == 0 && to[back[1]] == 1);
    }
    if n >= 3 {
        assert(to[back[2]] == 2);
    }
    if m >= 1 {
        assert(0 <= to[0] < n);
    }
    if m >= 2 {
        assert(back[to[0]] == 0 && back[to[1]] == 1);
    }
    if m >= 3 {
        assert(back[to[2]] == 2);
    }
    let moved = (
        if n > 0 {
            back[p.0]
        } else {
            0
        },
        if n > 1 {
            back[p.1]
        } else {
            0
        },
        if n > 2 {
            back[p.2]
        } else {
            0
        },
    );
    if n > 0 {
        assert(to[back[p.0]] == p.0);
    }
    if n > 1 {
        assert(to[back[p.1]] == p.1);
    }
    if n > 2 {
        assert(to[back[p.2]] == p.2);
    }
    assert forall|k: int| 0 <= k < m && m >= 3 && k != moved.0 && k != moved.1 && k != moved.2 implies (#[trigger] other[k]).1
        <= v.2->Some_0 by {
        let j = to[k];
        assert(back[j] == k);
        assert(j != p.0 && j != p.1 && j != p.2);
        assert(costs[j].1 <= v.2->Some_0);
    }
    assert(are_top(other, v, moved));
    lemma_top_are_one(other, v, moved, three_greatest(other), q);
}

/// A cost, or one where there is none.
pub open spec fn factor(c: Option<u128>) -> nat {
    match c {
        Some(v) => v as nat,
        None => 1,
    }
}

/// The product of a number that fits 64 bits and a cost, if it fits too.
pub open spec fn times(p: Option<u64>, c: Option<u128>) -> Option<u64> {
    match p {
        Some(v) => if v * factor(c) <= u64::MAX {
            Some((v * factor(c)) as u64)
        } else {
            None
        },
        None => None,
    }
}

/// The product of the three greatest costs, the greatest first, if it fits
/// 64 bits at every step; of fewer costs, the product of those there are.
pub open spec fn top_product_spec(costs: Seq<(usize, u128)>) -> Option<u64> {
    let (a, b, c) = three_greatest(costs);
    times(times(times(Some(1u64), a), b), c)
}

/// Two least costs of trips between the same towns are one.
proof fn lemma_least_cost_one(map: RoadMap, unit: bool, a: int, b: int, c: nat, d: nat)
    requires
        least_cost(map, unit, a, b, c),
        least_cost(map, unit, a, b, d),
    ensures
        c == d,
{
    let one = choose|trip: Seq<(usize, u64)>| #[trigger] leads(map, a, b, trip) && trip_cost(trip, unit) == c;
    let other = choose|trip: Seq<(usize, u64)>| #[trigger] leads(map, a, b, trip) && trip_cost(trip, unit) == d;
    assert(leads(map, a, b, one));
    assert(leads(map, a, b, other));
}

/// Two lists of the least costs from a town hold the same costs, place for
/// place: each names the same towns, each once, with the same costs.
proof fn lemma_costs_match(
    one: Seq<(usize, u128)>,
    other: Seq<(usize, u128)>,
    map: RoadMap,
    unit: bool,
    a: int,
) -> (ways: (Seq<int>, Seq<int>))
    requires
        lists_costs(one, map, unit, a),
        lists_costs(other, map, unit, a),
    ensures
        matched(one, other, ways.0, ways.1),
{
    let to = Seq::new(other.len(), |i: int| choose|j: int| 0 <= j < one.len() && (#[trigger] one[j]).0 == other[i].0);
    let back = Seq::new(one.len(), |j: int| choose|i: int| 0 <= i < other.len() && (#[trigger] other[i]).0 == one[j].0);
    assert forall|i: int| 0 <= i < other.len() implies 0 <= #[trigger] to[i] < one.len() && one[to[i]].0
        == other[i].0 && other[i].1 == one[to[i]].1 by {
        assert(least_cost(map, unit, a, other[i].0 as int, other[i].1 as nat));
        let j = choose|j: int| 0 <= j < one.len() && (#[trigger] one[j]).0 == other[i].0;
        assert(least_cost(map, unit, a, one[j].0 as int, one[j].1 as nat));
        lemma_least_cost_one(map, unit, a, other[i].0 as int, other[i].1 as nat, one[j].1 as nat);
    }
    assert forall|j: int| 0 <= j < one.len() implies 0 <= #[trigger] back[j] < other.len() && other[back[j]].0
        == one[j].0 by {
        assert(least_cost(map, unit, a, one[j].0 as int, one[j].1 as nat));
    }
    assert forall|i: int| 0 <= i < other.len() implies back[#[trigger] to[i]] == i by {
        let j = to[i];
        let k = back[j];
        assert(other[k].0 == other[i].0);
        if k < i {
            assert(other[k].0 != other[i].0);
        }
        if i < k {
            assert(other[i].0 != other[k].0);
        }
    }
    assert forall|j: int| 0 <= j < one.len() implies to[#[trigger] back[j]] == j by {
        let i = back[j];
        let k = to[i];
        assert(one[k].0 == one[j].0);
        if k < j {
            assert(one[k].0 != one[j].0);
        }
        if j < k {
            assert(one[j].0 != one[k].0);
        }
    }
    (to, back)
}

/// Whether `r` is the product of the three greatest among the least costs
/// of the trips from town `a` to every other town that it reaches, or none
/// where the product does not fit 64 bits: what every list of these costs
/// gives.
pub open spec fn is_top_product(map: RoadMap, unit: bool, a: int, r: Option<u64>) -> bool {
    &&& exists|list: Seq<(usize, u128)>| lists_costs(list, map, unit, a)
    &&& forall|list: Seq<(usize, u128)>| #[trigger] lists_costs(list, map, unit, a) ==> top_product_spec(list) == r
}

/// The product of a number that fits 64 bits and a cost.
fn multiply(p: Option<u64>, c: Option<u128>) -> (r: Option<u64>)
    ensures
        r == times(p, c),
{
    let v = match p {
        Some(v) => v,
        None => { return None; },
    };
    let f: u128 = match c {
        Some(f) => f,
        None => 1,
    };
    if f > u64::MAX as u128 {
        if v == 0 {
            assert(v * factor(c) == 0) by (nonlinear_arith)
                requires
                    v == 0,
            ;
            return Some(0);
        }
        assert(v * factor(c) > u64::MAX) by (nonlinear_arith)
            requires
                v >= 1,
                factor(c) > u64::MAX,
        ;
        return None;
    }
    assert(v * f <= 0xffff_ffff_ffff_ffff * 0xffff_ffff_ffff_ffff) by (nonlinear_arith)
        requires
            0 <= v <= 0xffff_ffff_ffff_ffff,
            0 <= f <= 0xffff_ffff_ffff_ffff,
    ;
    let wide: u128 = (v as u128) * f;
    if wide > u64::MAX as u128 {
        None
    } else {
        Some(wide as u64)
    }
}

/// The product of the three greatest costs.
pub fn top_product(costs: &Vec<(usize, u128)>) -> (r: Option<u64>)
    ensures
        r == top_product_spec(costs@),
{
    let mut a: Option<u128> = None;
    let mut b: Option<u128> = None;
    let mut c: Option<u128> = None;
    let mut i: usize = 0;
    while i < costs.len()
        invariant
            i <= costs.len(),
            three_greatest(costs@.take(i as int)) == (a, b, c),
        decreases costs.len() - i,
    {
        let v = costs[i].1;
        proof {
            assert(costs@.take(i + 1).drop_last() =~= costs@.take(i as int));
            assert(costs@.take(i + 1).last() == costs[i as int]);
        }
        let first = match a {
            Some(x) => v > x,
            None => true,
        };
        let second = match b {
            Some(x) => v > x,
            None => true,
        };
        let third = match c {
            Some(x) => v > x,
            None => true,
        };
        if first {
            c = b;
            b = a;
            a = Some(v);
        } else if second {
            c = b;
            b = Some(v);
        } else if third {
            c = Some(v);
        }
        i += 1;
    }
    assert(costs@.take(costs.len() as int) =~= costs@);
    multiply(multiply(multiply(Some(1), a), b), c)
}

/// The product of the three greatest among the least costs of the trips
/// from the town with the given name to every other town that it reaches,
/// where each road costs what it costs, or one. `None` where there is no
/// such town, and where the product does not fit 64 bits.
pub fn top_trips(roads: &Roads, start: &[u8], unit: bool) -> (r: Option<u64>)
    requires
        roads.wf(),
    ensures
        match town(roads.names_view(), start@, 0) {
            Some(a) => is_top_product(roads@, unit, a, r),
            None => r is None,
        },
{
    let a = match find_town(&roads.names, start) {
        Some(a) => a,
        None => { return None; },
    };
    assert(road_map(roads.next@) =~= roads@);
    let list = cheapest_trips(&roads.next, unit, a);
    let product = top_product(&list);
    proof {
        assert forall|other: Seq<(usize, u128)>| #[trigger] lists_costs(other, roads@, unit, a as int) implies top_product_spec(
            other,
        ) == product by {
            let ways = lemma_costs_match(list@, other, roads@, unit, a as int);
            lemma_three_greatest_any_order(list@, other, ways.0, ways.1);
        }
    }
    product
}

/// The greatest cost of a way from `current` back to `start` over towns that
/// are not yet visited, by one of the first `k` roads from `current`; `None`
/// where there is no such way. No more than `fuel` towns are passed.
pub open spec fn way_back(map: RoadMap, start: int, current: int, visited: Seq<bool>, fuel: nat, k: nat) -> Option<
    nat,
>
    decreases fuel, k,
{
    if k == 0 || !(0 <= current < map.len()) || k > map[current].len() {
        None
    } else {
        let before = way_back(map, start, current, visited, fuel, (k - 1) as nat);
        let (b, w) = map[current][k - 1];
        let by_this: Option<nat> = if b == start {
            Some(w as nat)
        } else if fuel > 0 && b < visited.len() && !visited[b as int] {
            match way_back(map, start, b as int, visited.update(b as int, true), (fuel - 1) as nat, map[b as int].len()) {
                Some(c) => Some(w as nat + c),
                None => None,
            }
        } else {
            None
        };
        match (before, by_this) {
            (Some(x), Some(y)) => Some(if y > x {
                y
            } else {
                x
            }),
            (Some(x), None) => Some(x),
            (None, y) => y,
        }
    }
}

/// The greatest cost of a way from a town back to `start` over towns that
/// are not yet visited.
fn dearest_way_back(next: &Vec<Exits>, start: usize, current: usize, visited: &mut Vec<bool>, fuel: usize) -> (r:
    Option<u128>)
    requires
        current < next.len(),
        old(visited).len() == next.len(),
        closed(road_map(next@)),
    ensures
        final(visited)@ == old(visited)@,
        match way_back(
            road_map(next@),
            start as int,
            current as int,
            old(visited)@,
            fuel as nat,
            next[current as int].len() as nat,
        ) {
            Some(c) => r == Some(c as u128) && c <= (fuel + 1) * 0xffff_ffff_ffff_ffff,
            None => r is None,
        },
    decreases fuel,
{
    let ghost map = road_map(next@);
    let ghost seen = visited@;
    let mut best: Option<u128> = None;
    let mut k: usize = 0;
    while k < next[current].len()
        invariant
            k <= next[current as int].len(),
            current < next.len(),
            visited.len() == next.len(),
            visited@ == seen,
            map == road_map(next@),
            closed(map),
            match way_back(map, start as int, current as int, seen, fuel as nat, k as nat) {
                Some(c) => best == Some(c as u128) && c <= (fuel + 1) * 0xffff_ffff_ffff_ffff,
                None => best is None,
            },
        decreases next[current as int].len() - k,
    {
        let (b, w) = next[current][k];
        assert(map[current as int] == next[current as int]@);
        assert(map[current as int][k as int] == (b, w));
        assert(b < next.len());
        assert(map[b as int].len() == next[b as int].len());
        let by_this: Option<u128> = if b == start {
            Some(w as u128)
        } else if fuel > 0 && !visited[b] {
            visited.set(b, true);
            let found = dearest_way_back(next, start, b, visited, fuel - 1);
            visited.set(b, false);
            assert(visited@ =~= seen);
            match found {
                Some(c) => {
                    assert(w + c <= (fuel + 1) * 0xffff_ffff_ffff_ffff) by (nonlinear_arith)
                        requires
                            c <= ((fuel - 1) + 1) * 0xffff_ffff_ffff_ffff,
                            w <= 0xffff_ffff_ffff_ffff,
                            fuel >= 1,
                    ;
                    assert((fuel + 1) * 0xffff_ffff_ffff_ffff <= u128::MAX) by (nonlinear_arith)
                        requires
                            fuel <= 0xffff_ffff_ffff_ffff,
                    ;
                    Some(w as u128 + c)
                },
                None => None,
            }
        } else {
            None
        };
        assert(w <= (fuel + 1) * 0xffff_ffff_ffff_ffff <= u128::MAX) by (nonlinear_arith)
            requires
                w <= 0xffff_ffff_ffff_ffff,
                0 <= fuel <= 0xffff_ffff_ffff_ffff,
        ;
        best = match (best, by_this) {
            (Some(x), Some(y)) => Some(if y > x {
                y
            } else {
                x
            }),
            (Some(x), None) => Some(x),
            (None, y) => y,
        };
        k += 1;
    }
    best
}

/// The greatest cost of a round trip from a town: a way back to it that
/// passes no town twice. Nothing where there is none; `None` where the cost
/// does not fit 64 bits.
pub fn longest_cycle_starting_from(roads: &Roads, start: usize) -> (r: Option<u64>)
    requires
        roads.wf(),
        start < roads.next.len(),
        roads.next.len() < usize::MAX,
    ensures
        r == round_trip_spec(roads@, start as int),
{
    let n = roads.next.len();
    let mut visited: Vec<bool> = Vec::new();
    let mut i: usize = 0;
    while i < n
        invariant
            i <= n,
            visited@ == Seq::new(i as nat, |k: int| false),
        decreases n - i,
    {
        visited.push(false);
        assert(visited@ =~= Seq::new((i + 1) as nat, |k: int| false));
        i += 1;
    }
    assert(road_map(roads.next@) =~= roads@);
    match dearest_way_back(&roads.next, start, start, &mut visited, n) {
        Some(c) => if c <= u64::MAX as u128 {
            Some(c as u64)
        } else {
            None
        },
        None => Some(0),
    }
}

/// The greatest cost of a round trip from a town, if it fits 64 bits.
pub open spec fn round_trip_spec(map: RoadMap, start: int) -> Option<u64> {
    match way_back(map, start, start, Seq::new(map.len(), |k: int| false), map.len(), map[start].len()) {
        Some(c) => if c <= u64::MAX {
            Some(c as u64)
        } else {
            None
        },
        None => Some(0u64),
    }
}

/// The greatest round trip from any of the first `n` towns, if each fits 64
/// bits.
pub open spec fn greatest_round_trip(map: RoadMap, n: int) -> Option<u64>
    decreases n,
{
    if n <= 0 {
        Some(0u64)
    } else {
        match (greatest_round_trip(map, n - 1), round_trip_spec(map, n - 1)) {
            (Some(a), Some(b)) => Some(if b > a {
                b
            } else {
                a
            }),
            _ => None,
        }
    }
}

/// The greatest cost of a round trip from any town; `None` where there is
/// no town, and where a cost does not fit 64 bits.
pub fn longest_cycle(roads: &Roads) -> (r: Option<u64>)
    requires
        roads.wf(),
        roads.next.len() < usize::MAX,
    ensures
        r == if roads@.len() == 0 {
            None
        } else {
            greatest_round_trip(roads@, roads@.len() as int)
        },
{
    if roads.next.len() == 0 {
        return None;
    }
    let mut best: u64 = 0;
    let mut i: usize = 0;
    while i < roads.next.len()
        invariant
            i <= roads.next.len(),
            roads.wf(),
            roads.next.len() < usize::MAX,
            greatest_round_trip(roads@, i as int) == Some(best),
        decreases roads.next.len() - i,
    {
        match longest_cycle_starting_from(roads, i) {
            Some(c) => {
                if c > best {
                    best = c;
                }
            },
            None => {
                proof {
                    lemma_round_trip_fails(roads@, i + 1, roads@.len() as int);
                }
                return None;
            },
        }
        i += 1;
    }
    Some(best)
}

/// Once a round trip does not fit, the greatest does not either.
proof fn lemma_round_trip_fails(map: RoadMap, k: int, n: int)
    requires
        0 <= k <= n,
        greatest_round_trip(map, k) is None,
    ensures
        greatest_round_trip(map, n) is None,
    decreases n - k,
{
    if k < n {
        lemma_round_trip_fails(map, k, n - 1);
    }
}

} // verus!
