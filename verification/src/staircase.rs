//! Staircases that branch from a main staircase and lead back to it, and
//! the ways to climb them.

use vstd::prelude::*;
use vstd::string::StringSliceAdditionalSpecFns;
use vstd::slice::slice_subrange;
use petgraph::graphmap::GraphMap;
use petgraph::visit::EdgeRef;
use petgraph::Directed;
use rustc_hash::FxBuildHasher;
use crate::text::{
    as_chars, decimal, filled, lemma_filled, lines, lines_spec, parse_unsigned, parse_unsigned_spec, push_bytes,
    split, split_once, split_once_spec, split_spec, to_decimal, tokens, tokens_spec,
};

verus! {

/// The number of a staircase: `S1` is the main one.
#[derive(Clone, Copy, Debug, PartialEq, Eq, Structural)]
pub struct StaircaseName(pub u8);

/// A step: the number of its staircase, and its own.
#[derive(Clone, Copy, Debug, PartialEq, Eq, Hash, Structural)]
pub struct StaircaseStep(pub u8, pub u8);

/// A branch: its name, its first and last step, the staircase that feeds it
/// at its first step, and the one that it returns to at its last.
#[derive(Clone, Copy, Debug, PartialEq, Eq, Structural)]
pub struct Staircase {
    pub name: StaircaseName,
    pub start: usize,
    pub end: usize,
    pub feeding: StaircaseName,
    pub returning: StaircaseName,
}

/// A text without the `S` at its beginning, if it has one.
pub open spec fn unprefixed(s: Seq<u8>) -> Seq<u8> {
    if s.len() > 0 && s[0] == 0x53 {
        s.skip(1)
    } else {
        s
    }
}

/// The number below 256 that a text such as `S12` or `12` writes.
pub open spec fn number_spec(s: Seq<u8>) -> Option<u8> {
    match parse_unsigned_spec(unprefixed(s), 255) {
        Some(n) => Some(n as u8),
        None => None,
    }
}

/// Reads a number below 256, with or without an `S` before it.
fn number(s: &[u8]) -> (r: Option<u8>)
    ensures
        r == number_spec(s@),
{
    let digits = if s.len() > 0 && s[0] == 0x53 {
        slice_subrange(s, 1, s.len())
    } else {
        assert(s@.subrange(0, s.len() as int) =~= s@);
        slice_subrange(s, 0, s.len())
    };
    match parse_unsigned(digits, 255) {
        Some(n) => Some(n as u8),
        None => None,
    }
}

/// The step that a text such as `S3_17` writes: its first two parts between
/// underscores, each a number below 256.
pub open spec fn step_spec(s: Seq<u8>) -> Option<StaircaseStep> {
    let parts = split_spec(s, seq![0x5fu8]);
    if parts.len() < 2 {
        None
    } else {
        match (number_spec(parts[0]), number_spec(parts[1])) {
            (Some(a), Some(b)) => Some(StaircaseStep(a, b)),
            _ => None,
        }
    }
}

impl StaircaseName {
    /// Reads the name of a staircase, such as `S12`.
    pub fn from_str(s: &str) -> (r: Option<Self>)
        ensures
            r == match number_spec(s.spec_bytes()) {
                Some(n) => Some(StaircaseName(n)),
                None => None,
            },
    {
        match number(s.as_bytes()) {
            Some(n) => Some(StaircaseName(n)),
            None => None,
        }
    }

    /// The name as text: `S` and the number.
    pub fn to_text(&self) -> (r: String)
        ensures
            r@ == seq!['S'] + as_chars(decimal(self.0 as nat)),
    {
        let mut out = String::new();
        out.push('S');
        let digits = to_decimal(self.0 as u64);
        push_bytes(&mut out, digits.as_slice());
        out
    }
}

impl StaircaseStep {
    /// Reads a step, such as `S3_17`.
    pub fn from_str(s: &str) -> (r: Option<Self>)
        ensures
            r == step_spec(s.spec_bytes()),
    {
        let underscore: [u8; 1] = [0x5f];
        assert(underscore@ =~= seq![0x5fu8]);
        let parts = split(s.as_bytes(), underscore.as_slice());
        if parts.len() < 2 {
            return None;
        }
        match (number(parts[0]), number(parts[1])) {
            (Some(a), Some(b)) => Some(StaircaseStep(a, b)),
            _ => None,
        }
    }

    /// The step as text: `S`, the number of the staircase, an underscore,
    /// and the number of the step.
    pub fn to_text(&self) -> (r: String)
        ensures
            r@ == seq!['S'] + as_chars(decimal(self.0 as nat)) + seq!['_'] + as_chars(decimal(self.1 as nat)),
    {
        let mut out = String::new();
        out.push('S');
        let digits = to_decimal(self.0 as u64);
        push_bytes(&mut out, digits.as_slice());
        out.push('_');
        let digits = to_decimal(self.1 as u64);
        push_bytes(&mut out, digits.as_slice());
        out
    }
}

/// The number that a word writes.
pub open spec fn count_spec(word: Seq<u8>) -> Option<usize> {
    match parse_unsigned_spec(word, usize::MAX as nat) {
        Some(n) => Some(n as usize),
        None => None,
    }
}

/// Reads a number.
fn count(word: &[u8]) -> (r: Option<usize>)
    ensures
        r == count_spec(word@),
{
    match parse_unsigned(word, usize::MAX as u64) {
        Some(n) => Some(n as usize),
        None => None,
    }
}

/// The branch that a line such as `S2 : 3 -> 6 : FROM S1 TO S1` writes: of
/// its words the first is the name, the third and fifth are the first and
/// last step, and the eighth and tenth the staircases that feed it and that
/// it returns to.
pub open spec fn branch_spec(line: Seq<u8>) -> Option<Staircase> {
    let words = tokens_spec(line);
    if words.len() < 10 {
        None
    } else {
        match (
            number_spec(words[0]),
            count_spec(words[2]),
            count_spec(words[4]),
            number_spec(words[7]),
            number_spec(words[9]),
        ) {
            (Some(name), Some(start), Some(end), Some(feeding), Some(returning)) => Some(
                Staircase {
                    name: StaircaseName(name),
                    start,
                    end,
                    feeding: StaircaseName(feeding),
                    returning: StaircaseName(returning),
                },
            ),
            _ => None,
        }
    }
}

/// Reads a branch.
pub fn parse_branch(line: &[u8]) -> (r: Option<Staircase>)
    ensures
        r == branch_spec(line@),
{
    let words = tokens(line);
    if words.len() < 10 {
        return None;
    }
    match (number(words[0]), count(words[2]), count(words[4]), number(words[7]), number(words[9])) {
        (Some(name), Some(start), Some(end), Some(feeding), Some(returning)) => Some(
            Staircase {
                name: StaircaseName(name),
                start,
                end,
                feeding: StaircaseName(feeding),
                returning: StaircaseName(returning),
            },
        ),
        _ => None,
    }
}

/// The last step of the main staircase, as the first line of a plan writes
/// it: the fifth of its words; the third is the first step.
pub open spec fn main_end_spec(line: Seq<u8>) -> Option<usize> {
    let words = tokens_spec(line);
    if words.len() < 5 {
        None
    } else {
        match (count_spec(words[2]), count_spec(words[4])) {
            (Some(start), Some(end)) => Some(end),
            _ => None,
        }
    }
}

/// What a plan writes: the last step of the main staircase, on its first
/// line, and the branches, on the lines after it up to the first empty one.
pub open spec fn load_input_spec(input: Seq<u8>) -> Option<(usize, Seq<Staircase>)> {
    let rows = lines_spec(input);
    if rows.len() == 0 {
        None
    } else {
        let last = filled(rows, 1);
        match main_end_spec(rows[0]) {
            Some(end) => if forall|i: int| 1 <= i < last ==> branch_spec(#[trigger] rows[i]) is Some {
                Some((end, Seq::new((last - 1) as nat, |i: int| branch_spec(rows[i + 1])->Some_0)))
            } else {
                None
            },
            None => None,
        }
    }
}

/// Reads a plan: the last step of the main staircase, and the branches.
pub fn load_input(input: &str) -> (r: Option<(usize, Vec<Staircase>)>)
    ensures
        match r {
            Some((end, branches)) => load_input_spec(input.spec_bytes()) == Some((end, branches@)),
            None => load_input_spec(input.spec_bytes()) is None,
        },
{
    let rows = lines(input.as_bytes());
    let ghost spec_rows = lines_spec(input.spec_bytes());
    if rows.len() == 0 {
        return None;
    }
    let words = tokens(rows[0]);
    if words.len() < 5 {
        return None;
    }
    let end = match (count(words[2]), count(words[4])) {
        (Some(start), Some(end)) => end,
        _ => { return None; },
    };
    let mut branches: Vec<Staircase> = Vec::new();
    let mut i: usize = 1;
    while i < rows.len() && rows[i].len() > 0
        invariant
            1 <= i <= rows.len(),
            spec_rows == lines_spec(input.spec_bytes()),
            rows.len() == spec_rows.len(),
            forall|k: int| 0 <= k < rows.len() ==> (#[trigger] rows[k])@ == spec_rows[k],
            main_end_spec(spec_rows[0]) == Some(end),
            filled(spec_rows, 1) == filled(spec_rows, i as int),
            branches.len() == i - 1,
            forall|k: int| 1 <= k < i ==> branch_spec(#[trigger] spec_rows[k]) == Some(branches[k - 1]),
        decreases rows.len() - i,
    {
        match parse_branch(rows[i]) {
            Some(branch) => {
                branches.push(branch);
            },
            None => {
                proof {
                    lemma_filled(spec_rows, i as int);
                    assert(branch_spec(spec_rows[i as int]) is None);
                }
                return None;
            },
        }
        i += 1;
    }
    proof {
        lemma_filled(spec_rows, i as int);
        assert(filled(spec_rows, 1) == i);
        assert(branches@ =~= Seq::new((i - 1) as nat, |k: int| branch_spec(spec_rows[k + 1])->Some_0));
    }
    Some((end, branches))
}

/// The steps that one move may take, as the last line of a plan writes them
/// after a colon and a blank: numbers parted by a comma and a blank.
pub open spec fn moves_spec(line: Seq<u8>) -> Option<Seq<usize>> {
    match split_once_spec(line, seq![0x3au8, 0x20u8]) {
        Some((head, list)) => {
            let parts = split_spec(list, seq![0x2cu8, 0x20u8]);
            if forall|i: int| 0 <= i < parts.len() ==> count_spec(#[trigger] parts[i]) is Some {
                Some(Seq::new(parts.len(), |i: int| count_spec(parts[i])->Some_0))
            } else {
                None
            }
        },
        None => None,
    }
}

/// Reads the steps that one move may take.
pub fn parse_moves(line: &[u8]) -> (r: Option<Vec<usize>>)
    ensures
        match r {
            Some(moves) => moves_spec(line@) == Some(moves@),
            None => moves_spec(line@) is None,
        },
{
    let colon: [u8; 2] = [0x3a, 0x20];
    assert(colon@ =~= seq![0x3au8, 0x20u8]);
    let comma: [u8; 2] = [0x2c, 0x20];
    assert(comma@ =~= seq![0x2cu8, 0x20u8]);
    let list = match split_once(line, colon.as_slice()) {
        Some((head, list)) => list,
        None => { return None; },
    };
    let parts = split(list, comma.as_slice());
    let ghost spec_parts = split_spec(list@, seq![0x2cu8, 0x20u8]);
    let mut moves: Vec<usize> = Vec::new();
    let mut i: usize = 0;
    while i < parts.len()
        invariant
            i <= parts.len(),
            spec_parts == split_spec(list@, seq![0x2cu8, 0x20u8]),
            split_once_spec(line@, seq![0x3au8, 0x20u8]) is Some,
            split_once_spec(line@, seq![0x3au8, 0x20u8])->Some_0.1 == list@,
            parts.len() == spec_parts.len(),
            forall|k: int| 0 <= k < parts.len() ==> (#[trigger] parts[k])@ == spec_parts[k],
            moves.len() == i,
            forall|k: int| 0 <= k < i ==> count_spec(#[trigger] spec_parts[k]) == Some(moves[k]),
        decreases parts.len() - i,
    {
        match count(parts[i]) {
            Some(n) => {
                moves.push(n);
            },
            None => {
                assert(count_spec(spec_parts[i as int]) is None);
                return None;
            },
        }
        i += 1;
    }
    assert(moves@ =~= Seq::new(spec_parts.len(), |k: int| count_spec(spec_parts[k])->Some_0));
    Some(moves)
}

/// The steps that one move may take, as the last line of a plan writes
/// them; `None` where the plan has no line, and where its last line writes
/// no moves.
pub fn load_moves(input: &str) -> (r: Option<Vec<usize>>)
    ensures
        match r {
            Some(moves) => lines_spec(input.spec_bytes()).len() > 0 && moves_spec(
                lines_spec(input.spec_bytes()).last(),
            ) == Some(moves@),
            None => lines_spec(input.spec_bytes()).len() == 0 || moves_spec(lines_spec(input.spec_bytes()).last())
                is None,
        },
{
    let rows = lines(input.as_bytes());
    if rows.len() == 0 {
        return None;
    }
    parse_moves(rows[rows.len() - 1])
}

/// The number of ways to reach step `i` of a staircase from its foot with
/// one of the first `k` of the given moves as the last move. A move of no
/// step counts the ways so far once more.
pub open spec fn ways_by(moves: Seq<usize>, i: nat, k: nat) -> nat
    decreases i, k,
{
    if k == 0 {
        0
    } else {
        let step = moves[k - 1];
        let before = ways_by(moves, i, (k - 1) as nat);
        before + if step == 0 {
            before
        } else if step <= i {
            ways(moves, (i - step) as nat)
        } else {
            0
        }
    }
}

/// The number of ways to reach step `i` of a staircase from its foot, where
/// each move takes one of the given numbers of steps.
pub open spec fn ways(moves: Seq<usize>, i: nat) -> nat
    decreases i, moves.len() + 1,
{
    if i == 0 {
        1
    } else {
        ways_by(moves, i, moves.len())
    }
}

/// Whether the numbers of ways to reach each of the first `n` steps fit 128
/// bits.
pub open spec fn ways_fit(moves: Seq<usize>, n: int) -> bool {
    forall|i: int| 0 <= i < n ==> #[trigger] ways(moves, i as nat) <= u128::MAX
}

/// Counting more moves counts no fewer ways.
proof fn lemma_ways_by_grows(moves: Seq<usize>, i: nat, k: nat, n: nat)
    requires
        k <= n,
    ensures
        ways_by(moves, i, k) <= ways_by(moves, i, n),
    decreases n - k,
{
    if k < n {
        lemma_ways_by_grows(moves, i, k, (n - 1) as nat);
    }
}

/// The number of ways to climb the main staircase to its last step; `None`
/// where a number of ways does not fit 128 bits.
pub fn count_stairs(end: usize, moves: &[usize]) -> (r: Option<u128>)
    requires
        end < usize::MAX,
    ensures
        r == if ways_fit(moves@, end + 1) {
            Some(ways(moves@, end as nat) as u128)
        } else {
            None
        },
{
    let mut paths: Vec<u128> = Vec::new();
    paths.push(1);
    let mut i: usize = 1;
    while i <= end
        invariant
            end < usize::MAX,
            1 <= i <= end + 1,
            paths.len() == i,
            forall|k: int| 0 <= k < i ==> #[trigger] paths[k] == ways(moves@, k as nat),
        decreases end + 1 - i,
    {
        let mut sum: u128 = 0;
        let mut k: usize = 0;
        while k < moves.len()
            invariant
                1 <= i <= end,
                k <= moves.len(),
                paths.len() == i,
                forall|j: int| 0 <= j < i ==> #[trigger] paths[j] == ways(moves@, j as nat),
                sum == ways_by(moves@, i as nat, k as nat),
            decreases moves.len() - k,
        {
            let step = moves[k];
            let more: u128 = if step == 0 {
                sum
            } else if step <= i {
                paths[i - step]
            } else {
                0
            };
            match sum.checked_add(more) {
                Some(total) => {
                    sum = total;
                },
                None => {
                    proof {
                        lemma_ways_by_grows(moves@, i as nat, (k + 1) as nat, moves@.len());
                        let at: int = i as int;
                        assert(ways(moves@, at as nat) > u128::MAX);
                    }
                    return None;
                },
            }
            k += 1;
        }
        paths.push(sum);
        i += 1;
    }
    proof {
        assert forall|k: int| 0 <= k < end + 1 implies #[trigger] ways(moves@, k as nat) <= u128::MAX by {
            assert(paths[k] == ways(moves@, k as nat));
        }
    }
    Some(paths[end])
}

/// `petgraph::graphmap::GraphMap`, a graph whose nodes are values. Verus
/// sees nothing inside it; what it holds is named by `graph_edges` and
/// `graph_nodes`.
#[verifier::external_type_specification]
#[verifier::external_body]
#[verifier::reject_recursive_types(N)]
#[verifier::reject_recursive_types(E)]
#[verifier::reject_recursive_types(Ty)]
#[verifier::reject_recursive_types(S)]
pub struct ExGraphMap<N, E, Ty, S: core::hash::BuildHasher>(GraphMap<N, E, Ty, S>);

/// `petgraph::Directed`, the mark of a graph whose edges have a direction.
#[verifier::external_type_specification]
#[verifier::external_body]
pub struct ExDirected(Directed);

/// `rustc_hash::FxBuildHasher`, the hasher that the graph keeps its nodes
/// and edges by.
#[verifier::external_type_specification]
#[verifier::external_body]
pub struct ExFxBuildHasher(FxBuildHasher);

/// A node of the graph of steps: the number of a staircase and of a step.
pub type Node = (u8, u8);

/// The graph of steps: an edge leads from a step to each step that one move
/// reaches from it.
pub type StepGraph = GraphMap<(u8, u8), u8, Directed, FxBuildHasher>;

/// The edges of a graph, each with its weight.
pub uninterp spec fn graph_edges(g: GraphMap<(u8, u8), u8, Directed, FxBuildHasher>) -> Map<(Node, Node), u8>;

/// The nodes of a graph.
pub uninterp spec fn graph_nodes(g: GraphMap<(u8, u8), u8, Directed, FxBuildHasher>) -> Set<Node>;

/// Whether a graph has neither nodes nor edges.
pub open spec fn is_bare(edges: Map<(Node, Node), u8>, nodes: Set<Node>) -> bool {
    edges == Map::<(Node, Node), u8>::empty() && nodes == Set::<Node>::empty()
}

/// `GraphMap::new`: a graph without nodes.
#[verifier::external_body]
fn graph_new() -> (r: StepGraph)
    ensures
        is_bare(graph_edges(r), graph_nodes(r)),
{
    GraphMap::new()
}

/// `GraphMap::add_edge`: makes the two nodes nodes of the graph, if they are
/// not yet, and gives the edge between them the weight, whether it was
/// there or not.
#[verifier::external_body]
fn graph_add_edge(g: &mut StepGraph, a: Node, b: Node, weight: u8)
    ensures
        graph_edges(*final(g)) == graph_edges(*old(g)).insert((a, b), weight),
        graph_nodes(*final(g)) == graph_nodes(*old(g)).insert(a).insert(b),
{
    g.add_edge(a, b, weight);
}

/// The edges of a plan, in the order in which they are drawn: the first `n`
/// steps up the staircase `name` from step `start`.
pub open spec fn flight(name: u8, start: int, n: int) -> Seq<(Node, Node)>
    decreases n,
{
    if n <= 0 {
        Seq::empty()
    } else {
        flight(name, start, n - 1).push(((name, (start + n - 1) as u8), (name, (start + n) as u8)))
    }
}

/// The edges of a branch: its flight, the edge from the staircase that
/// feeds it, and the edge to the staircase that it returns to.
pub open spec fn branch_edges(b: Staircase) -> Seq<(Node, Node)> {
    flight(b.name.0, b.start as int, b.end - b.start).push(
        ((b.feeding.0, b.start as u8), (b.name.0, b.start as u8)),
    ).push(((b.name.0, b.end as u8), (b.returning.0, b.end as u8)))
}

/// The edges of the first `n` branches.
pub open spec fn branches_edges(branches: Seq<Staircase>, n: int) -> Seq<(Node, Node)>
    decreases n,
{
    if n <= 0 {
        Seq::empty()
    } else {
        branches_edges(branches, n - 1) + branch_edges(branches[n - 1])
    }
}

/// The edges of a plan: the flight of the main staircase, then the branches.
pub open spec fn plan_edges(end: usize, branches: Seq<Staircase>) -> Seq<(Node, Node)> {
    flight(1, 0, end as int) + branches_edges(branches, branches.len() as int)
}

/// Whether every step of a plan has a number below 256.
pub open spec fn plan_fits(end: usize, branches: Seq<Staircase>) -> bool {
    &&& end <= 255
    &&& forall|i: int| 0 <= i < branches.len() ==> (#[trigger] branches[i]).start <= 255 && branches[i].end <= 255
}

/// A graph after edges of weight one are drawn.
pub open spec fn drawn(edges: Map<(Node, Node), u8>, list: Seq<(Node, Node)>) -> Map<(Node, Node), u8>
    decreases list.len(),
{
    if list.len() == 0 {
        edges
    } else {
        drawn(edges, list.drop_last()).insert(list.last(), 1u8)
    }
}

/// Drawing two lists one after the other draws their concatenation.
proof fn lemma_drawn_add(edges: Map<(Node, Node), u8>, a: Seq<(Node, Node)>, b: Seq<(Node, Node)>)
    ensures
        drawn(drawn(edges, a), b) == drawn(edges, a + b),
    decreases b.len(),
{
    if b.len() == 0 {
        assert(a + b =~= a);
    } else {
        lemma_drawn_add(edges, a, b.drop_last());
        assert((a + b).drop_last() =~= a + b.drop_last());
        assert((a + b).last() == b.last());
    }
}

/// The nodes of a graph after edges are drawn: those that it had, and the
/// two ends of every edge.
pub open spec fn joined(nodes: Set<Node>, list: Seq<(Node, Node)>) -> Set<Node>
    decreases list.len(),
{
    if list.len() == 0 {
        nodes
    } else {
        joined(nodes, list.drop_last()).insert(list.last().0).insert(list.last().1)
    }
}

/// Drawing two lists one after the other joins the ends of their
/// concatenation.
proof fn lemma_joined_add(nodes: Set<Node>, a: Seq<(Node, Node)>, b: Seq<(Node, Node)>)
    ensures
        joined(joined(nodes, a), b) == joined(nodes, a + b),
    decreases b.len(),
{
    if b.len() == 0 {
        assert(a + b =~= a);
    } else {
        lemma_joined_add(nodes, a, b.drop_last());
        assert((a + b).drop_last() =~= a + b.drop_last());
        assert((a + b).last() == b.last());
    }
}

/// Draws the first steps up a staircase.
fn draw_flight(g: &mut StepGraph, name: u8, start: usize, end: usize)
    requires
        end <= 255,
    ensures
        graph_edges(*final(g)) == drawn(graph_edges(*old(g)), flight(name, start as int, end - start)),
        graph_nodes(*final(g)) == joined(graph_nodes(*old(g)), flight(name, start as int, end - start)),
{
    let mut n: usize = start;
    assert(flight(name, start as int, 0) =~= Seq::<(Node, Node)>::empty());
    while n < end
        invariant
            end <= 255,
            start <= n || n == start,
            n <= end || n == start,
            graph_edges(*g) == drawn(graph_edges(*old(g)), flight(name, start as int, n - start)),
            graph_nodes(*g) == joined(graph_nodes(*old(g)), flight(name, start as int, n - start)),
        decreases end - n,
    {
        graph_add_edge(g, (name, n as u8), (name, (n + 1) as u8), 1);
        proof {
            let longer = flight(name, start as int, n + 1 - start);
            assert(longer.drop_last() =~= flight(name, start as int, n - start));
        }
        n += 1;
    }
    proof {
        if start > end {
            assert(flight(name, start as int, end - start) =~= Seq::<(Node, Node)>::empty());
        }
    }
}

/// Draws the edges of a plan into a graph, and says whether every step has
/// a number below 256. Where one has not, the graph is left half drawn.
pub fn construct_graph(g: &mut StepGraph, end: usize, staircases: &[Staircase]) -> (r: bool)
    ensures
        r == plan_fits(end, staircases@),
        r ==> graph_edges(*final(g)) == drawn(graph_edges(*old(g)), plan_edges(end, staircases@)),
        r ==> graph_nodes(*final(g)) == joined(graph_nodes(*old(g)), plan_edges(end, staircases@)),
{
    if end > 255 {
        return false;
    }
    draw_flight(g, 1, 0, end);
    let ghost main = flight(1, 0, end as int);
    let mut i: usize = 0;
    while i < staircases.len()
        invariant
            i <= staircases.len(),
            end <= 255,
            main == flight(1, 0, end as int),
            forall|k: int| 0 <= k < i ==> (#[trigger] staircases[k]).start <= 255 && staircases[k].end <= 255,
            graph_edges(*g) == drawn(graph_edges(*old(g)), main + branches_edges(staircases@, i as int)),
            graph_nodes(*g) == joined(graph_nodes(*old(g)), main + branches_edges(staircases@, i as int)),
        decreases staircases.len() - i,
    {
        let b = staircases[i];
        if b.start > 255 || b.end > 255 {
            return false;
        }
        let ghost before = graph_edges(*g);
        let ghost had = graph_nodes(*g);
        draw_flight(g, b.name.0, b.start, b.end);
        graph_add_edge(g, (b.feeding.0, b.start as u8), (b.name.0, b.start as u8), 1);
        graph_add_edge(g, (b.name.0, b.end as u8), (b.returning.0, b.end as u8), 1);
        proof {
            let own = branch_edges(b);
            let fl = flight(b.name.0, b.start as int, b.end - b.start);
            let fed = fl.push(((b.feeding.0, b.start as u8), (b.name.0, b.start as u8)));
            assert(own.drop_last() =~= fed);
            assert(fed.drop_last() =~= fl);
            assert(drawn(before, fed) == drawn(before, fl).insert(fed.last(), 1u8));
            assert(drawn(before, own) == drawn(before, fed).insert(own.last(), 1u8));
            assert(graph_edges(*g) == drawn(before, own));
            assert(joined(had, fed) == joined(had, fl).insert(fed.last().0).insert(fed.last().1));
            assert(joined(had, own) == joined(had, fed).insert(own.last().0).insert(own.last().1));
            assert(graph_nodes(*g) == joined(had, own));
            lemma_drawn_add(graph_edges(*old(g)), main + branches_edges(staircases@, i as int), own);
            lemma_joined_add(graph_nodes(*old(g)), main + branches_edges(staircases@, i as int), own);
            assert(main + branches_edges(staircases@, i as int) + own =~= main + branches_edges(
                staircases@,
                i + 1,
            ));
        }
        i += 1;
    }
    true
}

/// Whether a list names every member of a set, and each once.
pub open spec fn lists_set(list: Seq<Node>, set: Set<Node>) -> bool {
    &&& list.no_duplicates()
    &&& forall|n: Node| set.contains(n) <==> list.contains(n)
}

/// The nodes that an edge leads to from a node.
pub open spec fn neighbors_of(edges: Map<(Node, Node), u8>, a: Node) -> Set<Node> {
    Set::new(|b: Node| edges.dom().contains((a, b)))
}

/// Whether every edge between nodes of an order leads forward in it.
pub open spec fn in_order(order: Seq<Node>, edges: Map<(Node, Node), u8>) -> bool {
    forall|i: int, j: int|
        0 <= i < order.len() && 0 <= j < order.len() && edges.dom().contains((#[trigger] order[i], #[trigger] order[j]))
            ==> i < j
}

/// A walk: a row of nodes with an edge from each to the next.
pub open spec fn is_walk(edges: Map<(Node, Node), u8>, walk: Seq<Node>) -> bool {
    &&& walk.len() > 0
    &&& forall|i: int| 0 <= i < walk.len() - 1 ==> edges.dom().contains((#[trigger] walk[i], walk[i + 1]))
}

/// Whether a graph has a cycle: a walk over at least one edge that ends at
/// the node that it began at.
pub open spec fn has_cycle(edges: Map<(Node, Node), u8>) -> bool {
    exists|walk: Seq<Node>| #[trigger] is_walk(edges, walk) && walk.len() >= 2 && walk[0] == walk.last()
}

/// The weights of the edges of a walk together.
pub open spec fn walk_weight(edges: Map<(Node, Node), u8>, walk: Seq<Node>) -> int
    decreases walk.len(),
{
    if walk.len() <= 1 {
        0
    } else {
        walk_weight(edges, walk.drop_last()) + edges[(walk[walk.len() - 2], walk.last())]
    }
}

/// Whether a walk leads from `a` to `b`.
pub open spec fn joins(edges: Map<(Node, Node), u8>, walk: Seq<Node>, a: Node, b: Node) -> bool {
    is_walk(edges, walk) && walk[0] == a && walk.last() == b
}

/// Whether `d` is the least weight of a walk from `a` to `b`.
#[verifier::opaque]
pub open spec fn least_weight(edges: Map<(Node, Node), u8>, a: Node, b: Node, d: int) -> bool {
    &&& exists|walk: Seq<Node>| #[trigger] joins(edges, walk, a, b) && walk_weight(edges, walk) == d
    &&& forall|walk: Seq<Node>| #[trigger] joins(edges, walk, a, b) ==> walk_weight(edges, walk) >= d
}

/// Whether a list gives, for every node that a walk reaches from `a`, the
/// least weight of such a walk, and names each node once.
pub open spec fn lists_distances(list: Seq<(Node, u64)>, edges: Map<(Node, Node), u8>, a: Node) -> bool {
    &&& forall|i: int| 0 <= i < list.len() ==> least_weight(edges, a, (#[trigger] list[i]).0, list[i].1 as int)
    &&& forall|i: int, j: int| 0 <= i < j < list.len() ==> (#[trigger] list[i]).0 != (#[trigger] list[j]).0
    &&& forall|b: Node, d: int|
        #[trigger] least_weight(edges, a, b, d) ==> exists|i: int| 0 <= i < list.len() && (#[trigger] list[i]).0 == b
}

/// Whether an order names every node once, each before the nodes that its
/// edges lead to.
pub open spec fn sorts(order: Seq<Node>, edges: Map<(Node, Node), u8>, nodes: Set<Node>) -> bool {
    lists_set(order, nodes) && in_order(order, edges)
}

/// Whether the nodes of a graph can be put in an order in which every edge
/// leads forward.
pub open spec fn sortable(edges: Map<(Node, Node), u8>, nodes: Set<Node>) -> bool {
    exists|order: Seq<Node>| sorts(order, edges, nodes)
}

/// Whether two graphs have the same nodes and edges.
pub open spec fn same_graph(
    edges: Map<(Node, Node), u8>,
    nodes: Set<Node>,
    edges2: Map<(Node, Node), u8>,
    nodes2: Set<Node>,
) -> bool {
    edges == edges2 && nodes == nodes2
}

/// `GraphMap`'s `clone`: a graph with the same nodes and edges.
#[verifier::external_body]
fn graph_clone(g: &StepGraph) -> (r: StepGraph)
    ensures
        same_graph(graph_edges(r), graph_nodes(r), graph_edges(*g), graph_nodes(*g)),
{
    g.clone()
}

/// `GraphMap::nodes`: the nodes of a graph, each once.
#[verifier::external_body]
fn graph_node_list(g: &StepGraph) -> (r: Vec<Node>)
    ensures
        lists_set(r@, graph_nodes(*g)),
{
    g.nodes().collect()
}

/// `GraphMap::neighbors`: the nodes that an edge leads to from a node, each
/// once.
#[verifier::external_body]
fn graph_neighbor_list(g: &StepGraph, a: Node) -> (r: Vec<Node>)
    ensures
        lists_set(r@, neighbors_of(graph_edges(*g), a)),
{
    g.neighbors(a).collect()
}

/// `petgraph::algo::toposort`: the nodes of a graph, each once and before
/// the nodes that its edges lead to. It gives `None` where the graph has a
/// cycle, an edge from a node to itself being one, and nowhere else.
#[verifier::external_body]
fn graph_toposort(g: &StepGraph) -> (r: Option<Vec<Node>>)
    ensures
        match r {
            Some(order) => sorts(order@, graph_edges(*g), graph_nodes(*g)) && !has_cycle(graph_edges(*g)),
            None => has_cycle(graph_edges(*g)),
        },
{
    petgraph::algo::toposort(g, None).ok()
}

/// A weight as a 64-bit number.
pub fn widen(weight: u8) -> (r: u64)
    ensures
        r == weight,
{
    weight as u64
}

/// `petgraph::algo::dijkstra` without a goal: every node that a walk
/// reaches from `a`, with the least weight of such a walk.
#[verifier::external_body]
fn graph_distances(g: &StepGraph, a: Node) -> (r: Vec<(Node, u64)>)
    ensures
        lists_distances(r@, graph_edges(*g), a),
{
    petgraph::algo::dijkstra(g, a, None, |edge| widen(*edge.weight())).into_iter().collect()
}

/// Whether a walk of weight `d`, the least from `a` to `b`, is one that a
/// single move may take.
#[verifier::opaque]
pub open spec fn is_shortcut(edges: Map<(Node, Node), u8>, moves: Seq<usize>, a: Node, b: Node, d: int) -> bool {
    least_weight(edges, a, b, d) && moves.contains(d as usize) && 0 <= d <= usize::MAX
}

/// Whether `after` is `before` with an edge from every one of the `done`
/// nodes to every node that a single move reaches from it, of the weight of
/// the move. The other edges are as they were.
pub open spec fn contracted(
    before: Map<(Node, Node), u8>,
    moves: Seq<usize>,
    done: Set<Node>,
    after: Map<(Node, Node), u8>,
) -> bool {
    &&& forall|a: Node, b: Node, d: int|
        done.contains(a) && #[trigger] is_shortcut(before, moves, a, b, d) ==> after.dom().contains((a, b)) && after[(
            a,
            b,
        )] == d
    &&& forall|a: Node, b: Node| #[trigger]
        after.dom().contains((a, b)) ==> before.dom().contains((a, b)) || (done.contains(a) && exists|d: int| #[trigger]
            is_shortcut(before, moves, a, b, d))
    &&& forall|a: Node, b: Node| #[trigger]
        before.dom().contains((a, b)) ==> after.dom().contains((a, b)) && (after[(a, b)] == before[(a, b)] || (
        done.contains(a) && exists|d: int| #[trigger] is_shortcut(before, moves, a, b, d)))
}

/// The nodes of a graph after an edge is added from every one of the `done`
/// nodes to every node that a single move reaches from it: those that it
/// had, and every node so reached.
pub open spec fn reached(
    before: Map<(Node, Node), u8>,
    moves: Seq<usize>,
    nodes: Set<Node>,
    done: Set<Node>,
) -> Set<Node> {
    Set::new(
        |b: Node|
            nodes.contains(b) || exists|a: Node, d: int| done.contains(a) && #[trigger] is_shortcut(before, moves, a, b, d),
    )
}

/// Whether a number is among the moves.
fn is_move(moves: &[usize], d: u64) -> (r: bool)
    ensures
        r == (d <= usize::MAX && moves@.contains(d as usize)),
{
    if d > usize::MAX as u64 {
        return false;
    }
    let mut k: usize = 0;
    while k < moves.len()
        invariant
            k <= moves.len(),
            d <= usize::MAX,
            forall|j: int| 0 <= j < k ==> moves[j] != d,
        decreases moves.len() - k,
    {
        if moves[k] == d as usize {
            return true;
        }
        k += 1;
    }
    false
}

/// Whether `after` is `start` with an edge from `a` to every node that a
/// single move reaches from it in the graph `before`, of the weight of the
/// move. The other edges are as they were.
pub open spec fn row_contracted(
    before: Map<(Node, Node), u8>,
    moves: Seq<usize>,
    a: Node,
    start: Map<(Node, Node), u8>,
    after: Map<(Node, Node), u8>,
) -> bool {
    &&& forall|x: Node, b: Node|
        x != a ==> (#[trigger] after.dom().contains((x, b)) <==> start.dom().contains((x, b)))
    &&& forall|x: Node, b: Node| x != a && #[trigger] start.dom().contains((x, b)) ==> after[(x, b)] == start[(x, b)]
    &&& forall|b: Node, d: int|
        #[trigger] is_shortcut(before, moves, a, b, d) ==> after.dom().contains((a, b)) && after[(a, b)] == d
    &&& forall|b: Node| #[trigger]
        after.dom().contains((a, b)) ==> start.dom().contains((a, b)) || exists|d: int| #[trigger]
            is_shortcut(before, moves, a, b, d)
    &&& forall|b: Node| #[trigger]
        start.dom().contains((a, b)) ==> after.dom().contains((a, b)) && (after[(a, b)] == start[(a, b)]
            || exists|d: int| #[trigger] is_shortcut(before, moves, a, b, d))
}

/// Adds to a graph an edge from `a` to every node of the list whose
/// distance is among the moves, and says whether each such distance fits a
/// byte.
fn add_shortcuts(
    g2: &mut StepGraph,
    a: Node,
    dists: &Vec<(Node, u64)>,
    moves: &[usize],
    Ghost(before): Ghost<Map<(Node, Node), u8>>,
) -> (r: bool)
    requires
        lists_distances(dists@, before, a),
        graph_nodes(*old(g2)).contains(a),
    ensures
        r ==> row_contracted(before, moves@, a, graph_edges(*old(g2)), graph_edges(*final(g2))),
        r ==> forall|b: Node|
            graph_nodes(*final(g2)).contains(b) <==> (graph_nodes(*old(g2)).contains(b) || exists|d: int| #[trigger]
                is_shortcut(before, moves@, a, b, d)),
        !r ==> exists|b: Node, d: int| #[trigger] is_shortcut(before, moves@, a, b, d) && d > 255,
{
    let ghost start = graph_edges(*g2);
    let ghost had = graph_nodes(*g2);
    let mut j: usize = 0;
    while j < dists.len()
        invariant
            j <= dists.len(),
            start == graph_edges(*old(g2)),
            had == graph_nodes(*old(g2)),
            had.contains(a),
            lists_distances(dists@, before, a),
            forall|b: Node| had.contains(b) ==> graph_nodes(*g2).contains(b),
            forall|b: Node|
                graph_nodes(*g2).contains(b) ==> had.contains(b) || exists|d: int| #[trigger]
                    is_shortcut(before, moves@, a, b, d),
            forall|k: int|
                0 <= k < j && is_shortcut(before, moves@, a, (#[trigger] dists[k]).0, dists[k].1 as int)
                    ==> graph_nodes(*g2).contains(dists[k].0),
            forall|x: Node, b: Node|
                x != a ==> (#[trigger] graph_edges(*g2).dom().contains((x, b)) <==> start.dom().contains((x, b))),
            forall|x: Node, b: Node|
                x != a && #[trigger] start.dom().contains((x, b)) ==> graph_edges(*g2)[(x, b)] == start[(x, b)],
            forall|b: Node| #[trigger]
                graph_edges(*g2).dom().contains((a, b)) ==> start.dom().contains((a, b)) || exists|d: int| #[trigger]
                    is_shortcut(before, moves@, a, b, d),
            forall|b: Node| #[trigger]
                start.dom().contains((a, b)) ==> graph_edges(*g2).dom().contains((a, b)) && (graph_edges(*g2)[(
                    a,
                    b,
                )] == start[(a, b)] || exists|d: int| #[trigger] is_shortcut(before, moves@, a, b, d)),
            forall|k: int|
                0 <= k < j && is_shortcut(before, moves@, a, (#[trigger] dists[k]).0, dists[k].1 as int)
                    ==> graph_edges(*g2).dom().contains((a, dists[k].0)) && graph_edges(*g2)[(a, dists[k].0)]
                    == dists[k].1,
        decreases dists.len() - j,
    {
        let (b, d) = dists[j];
        assert(least_weight(before, a, dists[j as int].0, dists[j as int].1 as int));
        if is_move(moves, d) {
            assert(is_shortcut(before, moves@, a, b, d as int)) by {
                reveal(is_shortcut);
            }
            if d > 255 {
                return false;
            }
            let ghost mid = graph_edges(*g2);
            graph_add_edge(g2, a, b, d as u8);
            proof {
                assert forall|k: int|
                    0 <= k < j + 1 && is_shortcut(before, moves@, a, (#[trigger] dists[k]).0, dists[k].1 as int)
                    implies graph_edges(*g2).dom().contains((a, dists[k].0)) && graph_edges(*g2)[(a, dists[k].0)]
                    == dists[k].1 by {
                    if k < j {
                        assert(dists[k].0 != dists[j as int].0);
                        assert(mid.dom().contains((a, dists[k].0)));
                    }
                }
            }
        } else {
            assert(!is_shortcut(before, moves@, a, b, d as int)) by {
                reveal(is_shortcut);
            }
        }
        j += 1;
    }
    proof {
        let after = graph_edges(*g2);
        assert forall|b: Node, d: int| #[trigger] is_shortcut(before, moves@, a, b, d) implies after.dom().contains(
            (a, b),
        ) && after[(a, b)] == d by {
            assert(least_weight(before, a, b, d)) by {
                reveal(is_shortcut);
            }
            let k = choose|k: int| 0 <= k < dists.len() && (#[trigger] dists[k]).0 == b;
            lemma_least_is_one(before, a, b, d, dists[k].1 as int);
            assert(is_shortcut(before, moves@, a, dists[k].0, dists[k].1 as int));
        }
        assert forall|b: Node|
            (exists|d: int| #[trigger] is_shortcut(before, moves@, a, b, d)) implies graph_nodes(*g2).contains(b) by {
            let d = choose|d: int| #[trigger] is_shortcut(before, moves@, a, b, d);
            assert(least_weight(before, a, b, d)) by {
                reveal(is_shortcut);
            }
            let k = choose|k: int| 0 <= k < dists.len() && (#[trigger] dists[k]).0 == b;
            lemma_least_is_one(before, a, b, d, dists[k].1 as int);
            assert(is_shortcut(before, moves@, a, dists[k].0, dists[k].1 as int));
        }
    }
    true
}

/// The members of a list with one more are those of the list, and the one.
proof fn lemma_take_to_set(list: Seq<Node>, i: int)
    requires
        0 <= i < list.len(),
    ensures
        forall|x: Node| list.take(i + 1).to_set().contains(x) <==> (list.take(i).to_set().contains(x) || x == list[i]),
{
    let seen = list.take(i);
    let longer = list.take(i + 1);
    assert(longer =~= seen.push(list[i]));
    assert forall|x: Node| longer.to_set().contains(x) <==> (seen.to_set().contains(x) || x == list[i]) by {
        if longer.to_set().contains(x) {
            let k = choose|k: int| 0 <= k < longer.len() && longer[k] == x;
            if k < i {
                assert(seen[k] == x);
            }
        }
        if seen.to_set().contains(x) {
            let k = choose|k: int| 0 <= k < seen.len() && seen[k] == x;
            assert(longer[k] == x);
        }
        if x == list[i] {
            assert(longer[i] == x);
        }
    }
}

/// A graph contracted for some nodes and then for one more is contracted
/// for all of them.
proof fn lemma_contracted_grows(
    before: Map<(Node, Node), u8>,
    moves: Seq<usize>,
    done: Set<Node>,
    a: Node,
    grown: Set<Node>,
    start: Map<(Node, Node), u8>,
    after: Map<(Node, Node), u8>,
)
    requires
        !done.contains(a),
        forall|x: Node| grown.contains(x) <==> (done.contains(x) || x == a),
        contracted(before, moves, done, start),
        row_contracted(before, moves, a, start, after),
    ensures
        contracted(before, moves, grown, after),
{
    assert forall|x: Node, b: Node, d: int|
        grown.contains(x) && #[trigger] is_shortcut(before, moves, x, b, d) implies after.dom().contains((x, b))
        && after[(x, b)] == d by {
        if x != a {
            assert(start.dom().contains((x, b)));
        }
    }
    assert forall|x: Node, b: Node| #[trigger] after.dom().contains((x, b)) implies before.dom().contains((x, b)) || (
    grown.contains(x) && exists|d: int| #[trigger] is_shortcut(before, moves, x, b, d)) by {
        if x != a {
            assert(start.dom().contains((x, b)));
        } else if start.dom().contains((a, b)) {
            assert(before.dom().contains((a, b)));
        }
    }
    assert forall|x: Node, b: Node| #[trigger] before.dom().contains((x, b)) implies after.dom().contains((x, b)) && (
    after[(x, b)] == before[(x, b)] || (grown.contains(x) && exists|d: int| #[trigger]
        is_shortcut(before, moves, x, b, d))) by {
        assert(start.dom().contains((x, b)));
    }
}

/// The nodes of a graph after an edge is added from every node to every
/// node that a single move reaches from it.
pub open spec fn wide_nodes(g: StepGraph, moves: Seq<usize>) -> Set<Node> {
    reached(graph_edges(g), moves, graph_nodes(g), graph_nodes(g))
}

/// The nodes reached from some nodes and then from one more are those
/// reached from all of them.
proof fn lemma_reached_grows(
    before: Map<(Node, Node), u8>,
    moves: Seq<usize>,
    nodes: Set<Node>,
    done: Set<Node>,
    a: Node,
    grown: Set<Node>,
    after: Set<Node>,
)
    requires
        forall|x: Node| grown.contains(x) <==> (done.contains(x) || x == a),
        forall|b: Node|
            after.contains(b) <==> (reached(before, moves, nodes, done).contains(b) || exists|d: int| #[trigger]
                is_shortcut(before, moves, a, b, d)),
    ensures
        after == reached(before, moves, nodes, grown),
{
    let all = reached(before, moves, nodes, grown);
    assert forall|b: Node| after.contains(b) <==> all.contains(b) by {
        if after.contains(b) {
            if reached(before, moves, nodes, done).contains(b) {
                if !nodes.contains(b) {
                    let (x, d) = choose|x: Node, d: int| done.contains(x) && #[trigger] is_shortcut(before, moves, x, b, d);
                    assert(grown.contains(x) && is_shortcut(before, moves, x, b, d));
                }
            } else {
                let d = choose|d: int| #[trigger] is_shortcut(before, moves, a, b, d);
                assert(grown.contains(a) && is_shortcut(before, moves, a, b, d));
            }
        }
        if all.contains(b) {
            if !nodes.contains(b) {
                let (x, d) = choose|x: Node, d: int| grown.contains(x) && #[trigger] is_shortcut(before, moves, x, b, d);
                if x != a {
                    assert(done.contains(x) && is_shortcut(before, moves, x, b, d));
                }
            }
        }
    }
    assert(after =~= all);
}

/// The graph with an edge added from every node to every node that a
/// single move reaches from it: one whose least distance is among the moves;
/// its nodes are those of the graph and the nodes so reached. `None` where
/// such a distance does not fit a byte.
pub fn contract_graph(g: &StepGraph, moves: &[usize]) -> (r: Option<StepGraph>)
    ensures
        match r {
            Some(g2) => contracted(graph_edges(*g), moves@, graph_nodes(*g), graph_edges(g2)) && graph_nodes(g2)
                == wide_nodes(*g, moves@),
            None => exists|a: Node, b: Node, d: int|
                graph_nodes(*g).contains(a) && #[trigger] is_shortcut(graph_edges(*g), moves@, a, b, d) && d > 255,
        },
{
    let mut g2 = graph_clone(g);
    let list = graph_node_list(g);
    let ghost before = graph_edges(*g);
    let mut i: usize = 0;
    while i < list.len()
        invariant
            i <= list.len(),
            before == graph_edges(*g),
            lists_set(list@, graph_nodes(*g)),
            contracted(before, moves@, list@.take(i as int).to_set(), graph_edges(g2)),
            graph_nodes(g2) == reached(before, moves@, graph_nodes(*g), list@.take(i as int).to_set()),
        decreases list.len() - i,
    {
        let a = list[i];
        let ghost done = list@.take(i as int).to_set();
        let ghost start = graph_edges(g2);
        let ghost had = graph_nodes(g2);
        proof {
            assert(list@.contains(a));
            assert(had.contains(a));
            let seen = list@.take(i as int);
            if done.contains(a) {
                let k = choose|k: int| 0 <= k < seen.len() && seen[k] == a;
                assert(list@[k] == list@[i as int]);
            }
        }
        let dists = graph_distances(g, a);
        if !add_shortcuts(&mut g2, a, &dists, moves, Ghost(before)) {
            return None;
        }
        proof {
            lemma_take_to_set(list@, i as int);
            lemma_contracted_grows(
                before,
                moves@,
                done,
                a,
                list@.take(i + 1).to_set(),
                start,
                graph_edges(g2),
            );
            lemma_reached_grows(before, moves@, graph_nodes(*g), done, a, list@.take(i + 1).to_set(), graph_nodes(g2));
        }
        i += 1;
    }
    proof {
        assert(list@.take(list.len() as int) =~= list@);
        assert(list@.to_set() =~= graph_nodes(*g));
    }
    Some(g2)
}

/// Two least weights of walks between the same nodes are one.
proof fn lemma_least_is_one(edges: Map<(Node, Node), u8>, a: Node, b: Node, d: int, e: int)
    requires
        least_weight(edges, a, b, d),
        least_weight(edges, a, b, e),
    ensures
        d == e,
{
    reveal(least_weight);
    let w1 = choose|walk: Seq<Node>| #[trigger] joins(edges, walk, a, b) && walk_weight(edges, walk) == d;
    let w2 = choose|walk: Seq<Node>| #[trigger] joins(edges, walk, a, b) && walk_weight(edges, walk) == e;
    assert(joins(edges, w1, a, b));
    assert(joins(edges, w2, a, b));
}

/// The place of a node in a table of all nodes.
pub open spec fn key(n: Node) -> int {
    n.0 * 256 + n.1
}

/// The place of a node in a table of all nodes.
pub fn key_of(n: Node) -> (r: usize)
    ensures
        r == key(n),
        r < 65536,
{
    (n.0 as usize) * 256 + (n.1 as usize)
}

/// What a table holds for a node.
pub open spec fn entry(table: Seq<Option<u128>>, n: Node) -> Option<u128> {
    table[key(n)]
}

/// The number that a table holds for a node, or zero where it holds none.
pub open spec fn count_at(table: Seq<Option<u128>>, n: Node) -> nat {
    match entry(table, n) {
        Some(c) => c as nat,
        None => 0,
    }
}

/// The numbers that a table holds for the nodes of a list, together.
pub open spec fn sum_counts(table: Seq<Option<u128>>, list: Seq<Node>) -> nat
    decreases list.len(),
{
    if list.len() == 0 {
        0
    } else {
        sum_counts(table, list.drop_last()) + count_at(table, list.last())
    }
}

/// Whether a table holds, for every node of a graph, the number of walks
/// from it to the target: one for the target itself, and for any other
/// node the numbers of the nodes that its edges lead to, together. For what
/// is no node of the graph it holds nothing.
pub open spec fn tallied(
    edges: Map<(Node, Node), u8>,
    nodes: Set<Node>,
    target: Node,
    table: Seq<Option<u128>>,
) -> bool {
    &&& table.len() == 65536
    &&& entry(table, target) == Some(1u128)
    &&& forall|n: Node|
        n != target ==> match #[trigger] entry(table, n) {
            Some(c) => nodes.contains(n) && exists|list: Seq<Node>| #[trigger]
                lists_set(list, neighbors_of(edges, n)) && c == sum_counts(table, list),
            None => !nodes.contains(n),
        }
}

/// Whether the numbers of walks to the target fit a table: whether some
/// table holds them.
pub open spec fn counts_fit(edges: Map<(Node, Node), u8>, nodes: Set<Node>, target: Node) -> bool {
    exists|table: Seq<Option<u128>>| tallied(edges, nodes, target, table)
}

/// Whether the walks to the target cannot be counted: the graph has a
/// cycle, or a number of walks does not fit 128 bits.
pub open spec fn uncounted(edges: Map<(Node, Node), u8>, nodes: Set<Node>, target: Node) -> bool {
    has_cycle(edges) || !counts_fit(edges, nodes, target)
}

/// Whether two tables hold the same for every node that is not on a list.
pub open spec fn agree_but(one: Seq<Option<u128>>, other: Seq<Option<u128>>, but: Seq<Node>) -> bool {
    forall|n: Node| !but.contains(n) ==> #[trigger] entry(one, n) == entry(other, n)
}

/// Why walks could not be counted.
#[derive(Clone, Copy, Debug, PartialEq, Eq, Structural)]
pub enum CountError {
    /// The graph has a cycle.
    Cyclic,
    /// A number of walks does not fit 128 bits.
    Overflow,
}

/// A sum over a list is the same in two tables that hold the same for
/// every node of the list.
proof fn lemma_sum_counts_agree(one: Seq<Option<u128>>, other: Seq<Option<u128>>, list: Seq<Node>)
    requires
        forall|i: int| 0 <= i < list.len() ==> entry(one, #[trigger] list[i]) == entry(other, list[i]),
    ensures
        sum_counts(one, list) == sum_counts(other, list),
    decreases list.len(),
{
    if list.len() > 0 {
        lemma_sum_counts_agree(one, other, list.drop_last());
        assert(list[list.len() - 1] == list.last());
    }
}

/// A sum over a list is the sum over the list without one of its nodes,
/// and the number of that node.
pub(crate) proof fn lemma_sum_counts_remove(table: Seq<Option<u128>>, list: Seq<Node>, k: int)
    requires
        0 <= k < list.len(),
    ensures
        sum_counts(table, list) == sum_counts(table, list.remove(k)) + count_at(table, list[k]),
    decreases list.len(),
{
    if k == list.len() - 1 {
        assert(list.remove(k) =~= list.drop_last());
    } else {
        lemma_sum_counts_remove(table, list.drop_last(), k);
        assert(list.drop_last().remove(k) =~= list.remove(k).drop_last());
        assert(list.remove(k).last() == list.last());
    }
}

/// A sum over the beginning of a list is no more than the sum over the
/// list.
pub(crate) proof fn lemma_sum_counts_grows(table: Seq<Option<u128>>, list: Seq<Node>, j: int)
    requires
        0 <= j <= list.len(),
    ensures
        sum_counts(table, list.take(j)) <= sum_counts(table, list),
    decreases list.len(),
{
    if j == list.len() {
        assert(list.take(j) =~= list);
    } else {
        lemma_sum_counts_grows(table, list.drop_last(), j);
        assert(list.drop_last().take(j) =~= list.take(j));
    }
}

/// Two lists of the same nodes, each node once, have the same sum.
pub(crate) proof fn lemma_sum_counts_any_order(table: Seq<Option<u128>>, one: Seq<Node>, other: Seq<Node>)
    requires
        one.no_duplicates(),
        other.no_duplicates(),
        forall|n: Node| one.contains(n) <==> other.contains(n),
    ensures
        sum_counts(table, one) == sum_counts(table, other),
    decreases one.len(),
{
    if one.len() == 0 {
        if other.len() > 0 {
            assert(other.contains(other[0]));
        }
    } else {
        let last = one.last();
        let shorter = one.drop_last();
        assert(one.contains(last)) by {
            assert(one[one.len() - 1] == last);
        }
        let k = choose|k: int| 0 <= k < other.len() && other[k] == last;
        let rest = other.remove(k);
        assert forall|n: Node| shorter.contains(n) <==> rest.contains(n) by {
            if shorter.contains(n) {
                let i = choose|i: int| 0 <= i < shorter.len() && shorter[i] == n;
                assert(one[i] == n);
                assert(one.contains(n));
                let j = choose|j: int| 0 <= j < other.len() && other[j] == n;
                if j < k {
                    assert(rest[j] == n);
                } else {
                    assert(j > k);
                    assert(rest[j - 1] == n);
                }
            }
            if rest.contains(n) {
                let j = choose|j: int| 0 <= j < rest.len() && rest[j] == n;
                let at = if j < k {
                    j
                } else {
                    j + 1
                };
                assert(other[at] == n);
                assert(other.contains(n));
                let i = choose|i: int| 0 <= i < one.len() && one[i] == n;
                assert(shorter[i] == n);
            }
        }
        assert(rest.no_duplicates()) by {
            assert forall|i: int, j: int| 0 <= i < rest.len() && 0 <= j < rest.len() && i != j implies rest[i]
                != rest[j] by {
                let a = if i < k {
                    i
                } else {
                    i + 1
                };
                let b = if j < k {
                    j
                } else {
                    j + 1
                };
                assert(rest[i] == other[a] && rest[j] == other[b]);
            }
        }
        lemma_sum_counts_any_order(table, shorter, rest);
        lemma_sum_counts_remove(table, other, k);
    }
}

/// A node that is among the first `p + 1` of a list and not among the
/// first `p` is the one at `p`.
proof fn lemma_take_one_more(order: Seq<Node>, p: int, n: Node)
    requires
        0 <= p < order.len(),
        order.take(p + 1).contains(n),
        !order.take(p).contains(n),
    ensures
        n == order[p],
{
    let longer = order.take(p + 1);
    let k = choose|k: int| 0 <= k < longer.len() && longer[k] == n;
    if k < p {
        assert(order.take(p)[k] == n);
    }
}

/// Two tables that hold the same for every node are one table.
proof fn lemma_tables_equal(one: Seq<Option<u128>>, other: Seq<Option<u128>>)
    requires
        one.len() == 65536,
        other.len() == 65536,
        agree_but(one, other, Seq::empty()),
    ensures
        one == other,
{
    assert forall|i: int| 0 <= i < 65536 implies one[i] == other[i] by {
        let n: Node = ((i / 256) as u8, (i % 256) as u8);
        assert(key(n) == i);
        assert(!Seq::<Node>::empty().contains(n));
        assert(entry(one, n) == entry(other, n));
    }
    assert(one =~= other);
}

/// What a table that holds the numbers of walks holds for a node of a
/// sorted graph: the sum, over the nodes that its edges lead to, of what any
/// table holds that agrees with it on the nodes after that node.
proof fn lemma_tallied_entry(
    edges: Map<(Node, Node), u8>,
    nodes: Set<Node>,
    goal: Node,
    order: Seq<Node>,
    p: int,
    full: Seq<Option<u128>>,
    table: Seq<Option<u128>>,
    list: Seq<Node>,
)
    requires
        sorts(order, edges, nodes),
        0 <= p < order.len(),
        order[p] != goal,
        tallied(edges, nodes, goal, full),
        agree_but(full, table, order.take(p + 1)),
        lists_set(list, neighbors_of(edges, order[p])),
    ensures
        entry(full, order[p]) is Some,
        count_at(full, order[p]) == sum_counts(table, list),
{
    let node = order[p];
    assert(order.contains(node));
    assert(nodes.contains(node));
    match entry(full, node) {
        Some(c) => {
            let own = choose|own: Seq<Node>| #[trigger]
                lists_set(own, neighbors_of(edges, node)) && c == sum_counts(full, own);
            lemma_sum_counts_any_order(full, own, list);
            assert forall|i: int| 0 <= i < list.len() implies entry(full, #[trigger] list[i]) == entry(
                table,
                list[i],
            ) by {
                let m = list[i];
                assert(list.contains(m));
                assert(neighbors_of(edges, node).contains(m));
                let early = order.take(p + 1);
                if early.contains(m) {
                    let k = choose|k: int| 0 <= k < early.len() && early[k] == m;
                    assert(edges.dom().contains((order[p], order[k])));
                }
            }
            lemma_sum_counts_agree(full, table, list);
        },
        None => {},
    }
}

/// A sum over a list does not change where the table changes at a node that
/// is not on the list.
proof fn lemma_sum_counts_frame(table: Seq<Option<u128>>, list: Seq<Node>, n: Node, value: Option<u128>)
    requires
        table.len() == 65536,
        !list.contains(n),
    ensures
        sum_counts(table.update(key(n), value), list) == sum_counts(table, list),
    decreases list.len(),
{
    if list.len() > 0 {
        let shorter = list.drop_last();
        assert forall|m: Node| shorter.contains(m) implies list.contains(m) by {
            let k = choose|k: int| 0 <= k < shorter.len() && shorter[k] == m;
            assert(list[k] == m);
        }
        lemma_sum_counts_frame(table, shorter, n, value);
        assert(list[list.len() - 1] == list.last());
        assert(list.last() != n);
    }
}

/// The number of walks from every node of a graph to the target, by the
/// place of the node: the one table that holds these numbers. `Cyclic`
/// where the graph has a cycle; `Overflow` where it has none and a number of
/// walks does not fit 128 bits.
pub fn calculate_path_counts(g: &StepGraph, target: StaircaseStep) -> (r: Result<Vec<Option<u128>>, CountError>)
    ensures
        match r {
            Ok(table) => {
                &&& !has_cycle(graph_edges(*g))
                &&& sortable(graph_edges(*g), graph_nodes(*g))
                &&& tallied(graph_edges(*g), graph_nodes(*g), (target.0, target.1), table@)
                &&& forall|other: Seq<Option<u128>>| #[trigger]
                    tallied(graph_edges(*g), graph_nodes(*g), (target.0, target.1), other) ==> other == table@
            },
            Err(CountError::Cyclic) => has_cycle(graph_edges(*g)),
            Err(CountError::Overflow) => !has_cycle(graph_edges(*g)) && !counts_fit(
                graph_edges(*g),
                graph_nodes(*g),
                (target.0, target.1),
            ),
        },
{
    let goal: Node = (target.0, target.1);
    let order = match graph_toposort(g) {
        Some(order) => order,
        None => { return Err(CountError::Cyclic); },
    };
    let ghost edges = graph_edges(*g);
    let mut table: Vec<Option<u128>> = Vec::new();
    let mut k: usize = 0;
    while k < 65536
        invariant
            k <= 65536,
            table.len() == k,
            forall|j: int| 0 <= j < k ==> (#[trigger] table[j]) is None,
        decreases 65536 - k,
    {
        table.push(None);
        k += 1;
    }
    let at = key_of(goal);
    table.set(at, Some(1));
    let mut p: usize = order.len();
    proof {
        assert(order@.take(p as int) =~= order@);
        assert forall|full: Seq<Option<u128>>| #[trigger]
            tallied(edges, graph_nodes(*g), goal, full) implies agree_but(full, table@, order@) by {
            assert forall|n: Node| !order@.contains(n) implies #[trigger] entry(full, n) == entry(table@, n) by {
                if n != goal {
                    assert(key(n) != key(goal));
                    assert(!graph_nodes(*g).contains(n));
                }
            }
        }
    }
    while p > 0
        invariant
            p <= order.len(),
            goal == (target.0, target.1),
            edges == graph_edges(*g),
            !has_cycle(edges),
            sorts(order@, edges, graph_nodes(*g)),
            table.len() == 65536,
            entry(table@, goal) == Some(1u128),
            forall|full: Seq<Option<u128>>| #[trigger]
                tallied(edges, graph_nodes(*g), goal, full) ==> agree_but(full, table@, order@.take(p as int)),
            forall|n: Node|
                n != goal ==> match #[trigger] entry(table@, n) {
                    Some(c) => order@.skip(p as int).contains(n) && exists|list: Seq<Node>| #[trigger]
                        lists_set(list, neighbors_of(edges, n)) && c == sum_counts(table@, list),
                    None => !order@.skip(p as int).contains(n),
                },
        decreases p,
    {
        p = p - 1;
        let node = order[p];
        let ghost rest = order@.skip(p + 1);
        let ghost now = order@.skip(p as int);
        proof {
            assert(now =~= seq![node] + rest);
            assert forall|n: Node| now.contains(n) <==> (n == node || rest.contains(n)) by {
                if now.contains(n) {
                    let k = choose|k: int| 0 <= k < now.len() && now[k] == n;
                    if k > 0 {
                        assert(rest[k - 1] == n);
                    }
                }
                if rest.contains(n) {
                    let k = choose|k: int| 0 <= k < rest.len() && rest[k] == n;
                    assert(now[k + 1] == n);
                }
                if n == node {
                    assert(now[0] == n);
                }
            }
            assert(!rest.contains(node)) by {
                if rest.contains(node) {
                    let k = choose|k: int| 0 <= k < rest.len() && rest[k] == node;
                    assert(order@[p + 1 + k] == order@[p as int]);
                }
            }
        }
        if node.0 == goal.0 && node.1 == goal.1 {
            proof {
                assert forall|full: Seq<Option<u128>>| #[trigger]
                    tallied(edges, graph_nodes(*g), goal, full) implies agree_but(
                    full,
                    table@,
                    order@.take(p as int),
                ) by {
                    assert(agree_but(full, table@, order@.take(p + 1)));
                    assert forall|n: Node| !order@.take(p as int).contains(n) implies #[trigger] entry(full, n)
                        == entry(table@, n) by {
                        if order@.take(p + 1).contains(n) {
                            lemma_take_one_more(order@, p as int, n);
                        }
                    }
                }
            }
            continue ;
        }
        let list = graph_neighbor_list(g, node);
        let mut sum: u128 = 0;
        let mut j: usize = 0;
        while j < list.len()
            invariant
                j <= list.len(),
                p < order.len(),
                node == order[p as int],
                node != goal,
                goal == (target.0, target.1),
                edges == graph_edges(*g),
                !has_cycle(edges),
                sorts(order@, edges, graph_nodes(*g)),
                lists_set(list@, neighbors_of(edges, node)),
                forall|full: Seq<Option<u128>>| #[trigger]
                    tallied(edges, graph_nodes(*g), goal, full) ==> agree_but(full, table@, order@.take(p + 1)),
                table.len() == 65536,
                sum == sum_counts(table@, list@.take(j as int)),
            decreases list.len() - j,
        {
            let slot = key_of(list[j]);
            let c: u128 = match table[slot] {
                Some(c) => c,
                None => 0,
            };
            proof {
                assert(list@.take(j + 1).drop_last() =~= list@.take(j as int));
                assert(list@.take(j + 1).last() == list[j as int]);
            }
            sum = match sum.checked_add(c) {
                Some(total) => total,
                None => {
                    proof {
                        // the node's own number would be above what the table can hold
                        lemma_sum_counts_grows(table@, list@, j + 1);
                        assert forall|full: Seq<Option<u128>>| !tallied(edges, graph_nodes(*g), goal, full) by {
                            if tallied(edges, graph_nodes(*g), goal, full) {
                                lemma_tallied_entry(
                                    edges,
                                    graph_nodes(*g),
                                    goal,
                                    order@,
                                    p as int,
                                    full,
                                    table@,
                                    list@,
                                );
                            }
                        }
                    }
                    return Err(CountError::Overflow);
                },
            };
            j += 1;
        }
        assert(list@.take(list.len() as int) =~= list@);
        let ghost before = table@;
        let slot = key_of(node);
        table.set(slot, Some(sum));
        proof {
            // every table that holds the numbers holds this sum for the node
            assert forall|full: Seq<Option<u128>>| #[trigger]
                tallied(edges, graph_nodes(*g), goal, full) implies agree_but(
                full,
                table@,
                order@.take(p as int),
            ) by {
                lemma_tallied_entry(edges, graph_nodes(*g), goal, order@, p as int, full, before, list@);
                assert(entry(full, node) == Some(sum));
                assert(agree_but(full, before, order@.take(p + 1)));
                assert forall|n: Node| !order@.take(p as int).contains(n) implies #[trigger] entry(full, n) == entry(
                    table@,
                    n,
                ) by {
                    if order@.take(p + 1).contains(n) {
                        lemma_take_one_more(order@, p as int, n);
                    }
                    if n != node {
                        assert(key(n) != key(node));
                    }
                }
            }
            // the node is on none of the lists that were summed
            assert(!list@.contains(node)) by {
                if list@.contains(node) {
                    assert(neighbors_of(edges, node).contains(node));
                    assert(edges.dom().contains((order@[p as int], order@[p as int])));
                }
            }
            lemma_sum_counts_frame(before, list@, node, Some(sum));
            assert forall|n: Node| n != goal implies match #[trigger] entry(table@, n) {
                Some(c) => now.contains(n) && exists|l: Seq<Node>| #[trigger]
                    lists_set(l, neighbors_of(edges, n)) && c == sum_counts(table@, l),
                None => !now.contains(n),
            } by {
                if n == node {
                    assert(lists_set(list@, neighbors_of(edges, n)) && sum == sum_counts(table@, list@));
                } else {
                    assert(key(n) != key(node));
                    assert(entry(table@, n) == entry(before, n));
                    match entry(before, n) {
                        Some(c) => {
                            let l = choose|l: Seq<Node>| #[trigger]
                                lists_set(l, neighbors_of(edges, n)) && c == sum_counts(before, l);
                            assert(!l.contains(node)) by {
                                if l.contains(node) {
                                    assert(neighbors_of(edges, n).contains(node));
                                    let k = choose|k: int| 0 <= k < rest.len() && rest[k] == n;
                                    assert(edges.dom().contains((order@[p + 1 + k], order@[p as int])));
                                }
                            }
                            lemma_sum_counts_frame(before, l, node, Some(sum));
                            assert(lists_set(l, neighbors_of(edges, n)) && c == sum_counts(table@, l));
                        },
                        None => {},
                    }
                }
            }
        }
    }
    proof {
        assert(sorts(order@, edges, graph_nodes(*g)));
        assert(order@.skip(0) =~= order@);
        assert(order@.take(0) =~= Seq::empty());
        assert forall|other: Seq<Option<u128>>| #[trigger]
            tallied(edges, graph_nodes(*g), goal, other) implies other == table@ by {
            lemma_tables_equal(other, table@);
        }
    }
    Ok(table)
}

/// The number of walks from a node to the target; `None` where the graph
/// has a cycle, and where a number of walks does not fit 128 bits.
pub fn count_paths_dp(g: &StepGraph, source: StaircaseStep, target: StaircaseStep) -> (r: Option<u128>)
    ensures
        match r {
            Some(c) => {
                &&& !has_cycle(graph_edges(*g))
                &&& counts_fit(graph_edges(*g), graph_nodes(*g), (target.0, target.1))
                &&& forall|table: Seq<Option<u128>>| #[trigger]
                    tallied(graph_edges(*g), graph_nodes(*g), (target.0, target.1), table) ==> c == count_at(
                        table,
                        (source.0, source.1),
                    )
            },
            None => uncounted(graph_edges(*g), graph_nodes(*g), (target.0, target.1)),
        },
{
    match calculate_path_counts(g, target) {
        Ok(table) => {
            let slot = key_of((source.0, source.1));
            match table[slot] {
                Some(c) => Some(c),
                None => Some(0),
            }
        },
        Err(_) => None,
    }
}

/// The number of ways to climb from the foot of the main staircase to its
/// last step over all staircases, where one move takes as many steps as one
/// of the given moves. `None` where the last step is above 255, where a
/// single move leads further than a byte counts, and where the ways over the
/// graph with such moves for edges cannot be counted.
pub fn solve_part2(g: &StepGraph, end: usize, moves: &[usize]) -> (r: Option<u128>)
    ensures
        match r {
            Some(c) => end <= 255 && exists|wide: Map<(Node, Node), u8>, table: Seq<Option<u128>>|
                #![trigger tallied(wide, wide_nodes(*g, moves@), (1u8, end as u8), table)]
                {
                    &&& contracted(graph_edges(*g), moves@, graph_nodes(*g), wide)
                    &&& !has_cycle(wide)
                    &&& tallied(wide, wide_nodes(*g, moves@), (1u8, end as u8), table)
                    &&& c == count_at(table, (1u8, 0u8))
                },
            None => end > 255 || (exists|a: Node, b: Node, d: int|
                graph_nodes(*g).contains(a) && #[trigger] is_shortcut(graph_edges(*g), moves@, a, b, d) && d > 255)
                || (exists|wide: Map<(Node, Node), u8>| #[trigger]
                uncounted(wide, wide_nodes(*g, moves@), (1u8, end as u8)) && contracted(
                    graph_edges(*g),
                    moves@,
                    graph_nodes(*g),
                    wide,
                )),
        },
{
    if end > 255 {
        return None;
    }
    let wide = match contract_graph(g, moves) {
        Some(wide) => wide,
        None => { return None; },
    };
    count_paths_dp(&wide, StaircaseStep(1, 0), StaircaseStep(1, end as u8))
}

/// Whether a list rises: each node lies before every later one, by
/// staircase and then by step.
pub open spec fn rises(list: Seq<Node>) -> bool {
    forall|i: int, j: int| 0 <= i < j < list.len() ==> key(#[trigger] list[i]) < key(#[trigger] list[j])
}

/// Two rising lists of the same nodes are one list.
pub proof fn lemma_rising_is_one(a: Seq<Node>, b: Seq<Node>)
    requires
        rises(a),
        rises(b),
        forall|n: Node| a.contains(n) <==> b.contains(n),
    ensures
        a == b,
    decreases a.len(),
{
    if a.len() == 0 {
        if b.len() > 0 {
            assert(b.contains(b[0]));
        }
        assert(a =~= b);
    } else {
        assert(a.contains(a.last()));
        assert(b.len() > 0) by {
            let k = choose|k: int| 0 <= k < b.len() && b[k] == a.last();
        }
        assert(b.contains(b.last()));
        let ka = choose|k: int| 0 <= k < a.len() && a[k] == b.last();
        let kb = choose|k: int| 0 <= k < b.len() && b[k] == a.last();
        assert(a.last() == b.last()) by {
            if ka < a.len() - 1 {
                assert(key(a[ka]) < key(a[a.len() - 1]));
            }
            if kb < b.len() - 1 {
                assert(key(b[kb]) < key(b[b.len() - 1]));
            }
        }
        let a2 = a.drop_last();
        let b2 = b.drop_last();
        assert forall|n: Node| a2.contains(n) <==> b2.contains(n) by {
            if a2.contains(n) {
                let k = choose|k: int| 0 <= k < a2.len() && a2[k] == n;
                assert(a[k] == n);
                assert(key(a[k]) < key(a[a.len() - 1]));
                assert(a.contains(n));
                let m = choose|m: int| 0 <= m < b.len() && b[m] == n;
                assert(m < b.len() - 1);
                assert(b2[m] == n);
            }
            if b2.contains(n) {
                let k = choose|k: int| 0 <= k < b2.len() && b2[k] == n;
                assert(b[k] == n);
                assert(key(b[k]) < key(b[b.len() - 1]));
                assert(b.contains(n));
                let m = choose|m: int| 0 <= m < a.len() && a[m] == n;
                assert(m < a.len() - 1);
                assert(a2[m] == n);
            }
        }
        assert forall|i: int, j: int| 0 <= i < j < a2.len() implies key(#[trigger] a2[i]) < key(#[trigger] a2[j]) by {
            assert(key(a[i]) < key(a[j]));
        }
        assert forall|i: int, j: int| 0 <= i < j < b2.len() implies key(#[trigger] b2[i]) < key(#[trigger] b2[j]) by {
            assert(key(b[i]) < key(b[j]));
        }
        lemma_rising_is_one(a2, b2);
        assert(a =~= a2.push(a.last()));
        assert(b =~= b2.push(b.last()));
    }
}

/// The nodes of a list in rising order, each once.
pub fn sorted_nodes(list: &Vec<Node>) -> (r: Vec<Node>)
    ensures
        rises(r@),
        forall|n: Node| r@.contains(n) <==> list@.contains(n),
{
    let mut out: Vec<Node> = Vec::new();
    let mut i: usize = 0;
    while i < list.len()
        invariant
            i <= list.len(),
            rises(out@),
            forall|n: Node| out@.contains(n) <==> list@.take(i as int).contains(n),
        decreases list.len() - i,
    {
        let x = list[i];
        let kx = key_of(x);
        let mut at: usize = 0;
        while at < out.len() && key_of(out[at]) < kx
            invariant
                at <= out.len(),
                kx == key(x),
                forall|k: int| 0 <= k < at ==> key(#[trigger] out[k]) < kx,
            decreases out.len() - at,
        {
            at += 1;
        }
        let ghost before = out@;
        let ghost seen = list@.take(i as int);
        let ghost more = list@.take(i + 1);
        let fresh = !(at < out.len() && key_of(out[at]) == kx);
        if fresh {
            out.insert(at, x);
            assert(out@ == before.insert(at as int, x));
            assert forall|idx: int| 0 <= idx < out.len() implies #[trigger] out[idx] == if idx < at {
                before[idx]
            } else if idx == at {
                x
            } else {
                before[idx - 1]
            } by {}
            proof {
                assert forall|a: int, b: int| 0 <= a < b < out.len() implies key(#[trigger] out[a]) < key(
                    #[trigger] out[b],
                ) by {
                    let pa = if a < at { a } else { a - 1 };
                    let pb = if b < at { b } else { b - 1 };
                    if a != at && b != at {
                        assert(key(before[pa]) < key(before[pb]));
                    } else if a == at {
                        assert(key(before[at as int]) <= key(before[pb]) || pb == at) by {
                            if pb > at {
                                assert(key(before[at as int]) < key(before[pb]));
                            }
                        }
                    }
                }
            }
        }
        proof {
            assert(more =~= seen.push(x));
            assert forall|n: Node| out@.contains(n) <==> more.contains(n) by {
                if out@.contains(n) {
                    let k = choose|k: int| 0 <= k < out.len() && out[k] == n;
                    if fresh {
                        assert(out@ == before.insert(at as int, x));
                        if k == at {
                            assert(more[i as int] == n);
                        } else {
                            let pk = if k < at { k } else { k - 1 };
                            if k < at {
                                assert(out@[k] == before[k]);
                            } else {
                                assert(out@[k] == before[k - 1]);
                            }
                            assert(before[pk] == n);
                            assert(before.contains(n));
                            let m = choose|m: int| 0 <= m < seen.len() && seen[m] == n;
                            assert(more[m] == n);
                        }
                    } else {
                        assert(before.contains(n));
                        let m = choose|m: int| 0 <= m < seen.len() && seen[m] == n;
                        assert(more[m] == n);
                    }
                }
                if more.contains(n) {
                    let m = choose|m: int| 0 <= m < more.len() && more[m] == n;
                    if m < i {
                        assert(seen[m] == n);
                        assert(seen.contains(n));
                        assert(before.contains(n));
                        let k = choose|k: int| 0 <= k < before.len() && before[k] == n;
                        assert(0 <= k < before.len() && before[k] == n);
                        assert(0 <= at <= before.len());
                        if fresh {
                            assert(out@ == before.insert(at as int, x));
                            if k < at {
                                assert(out@[k] == before[k]);
                            } else {
                                assert(out@[k + 1] == before[k]);
                            }
                        } else {
                            assert(out[k] == n);
                        }
                    } else {
                        if fresh {
                            assert(out[at as int] == n);
                        } else {
                            assert(key(out[at as int]) == key(x));
                            assert(out[at as int] == n);
                        }
                    }
                }
            }
        }
        i += 1;
    }
    assert(list@.take(list.len() as int) =~= list@);
    out
}

/// The nodes that an edge leads to from a node, in rising order.
pub open spec fn sorted_neighbors(edges: Map<(Node, Node), u8>, a: Node) -> Seq<Node> {
    choose|list: Seq<Node>| rises(list) && forall|n: Node| #[trigger] list.contains(n) <==> edges.dom().contains((a, n))
}

/// The next node of the `k`-th walk: the first node of the list, from place
/// `from` on, among whose walks the `k`-th lies, and where among them it
/// lies. A node without a walk is passed over, and the walks of a node that
/// come before the `k`-th are counted off.
pub open spec fn pick(list: Seq<Node>, table: Seq<Option<u128>>, k: int, from: int) -> Option<(Node, int)>
    decreases list.len() - from,
{
    if from < 0 || from >= list.len() {
        None
    } else {
        let c = count_at(table, list[from]);
        if c == 0 {
            pick(list, table, k, from + 1)
        } else if k <= c {
            Some((list[from], k))
        } else {
            pick(list, table, k - c, from + 1)
        }
    }
}

/// The nodes after `current` on the `k`-th walk from it to the target, where
/// walks are ordered by their nodes and `fuel` nodes are followed at most.
pub open spec fn kth_rest(
    edges: Map<(Node, Node), u8>,
    table: Seq<Option<u128>>,
    current: Node,
    target: Node,
    k: int,
    fuel: nat,
) -> Option<Seq<Node>>
    decreases fuel,
{
    if current == target {
        Some(Seq::empty())
    } else if fuel == 0 {
        None
    } else {
        match pick(sorted_neighbors(edges, current), table, k, 0) {
            Some((next, left)) => match kth_rest(edges, table, next, target, left, (fuel - 1) as nat) {
                Some(rest) => Some(seq![next] + rest),
                None => None,
            },
            None => None,
        }
    }
}

/// The `k`-th walk from the source to the target, counted from one, where
/// walks are ordered by their nodes and the table holds for each node the
/// number of its walks to the target. `None` where there are fewer walks
/// than `k`, or the table leads astray.
pub open spec fn kth_path(
    edges: Map<(Node, Node), u8>,
    table: Seq<Option<u128>>,
    source: Node,
    target: Node,
    k: int,
) -> Option<Seq<Node>> {
    if k <= 0 || k > count_at(table, source) {
        None
    } else if source == target {
        if k == 1 {
            Some(seq![source])
        } else {
            None
        }
    } else {
        match kth_rest(edges, table, source, target, k, 65536) {
            Some(rest) => Some(seq![source] + rest),
            None => None,
        }
    }
}

/// The nodes with a place below `n` that an edge leads to from a node, in
/// rising order.
pub open spec fn neighbors_below(edges: Map<(Node, Node), u8>, a: Node, n: nat) -> Seq<Node>
    decreases n,
{
    if n == 0 {
        Seq::empty()
    } else {
        let m: Node = (((n - 1) / 256) as u8, ((n - 1) % 256) as u8);
        let lower = neighbors_below(edges, a, (n - 1) as nat);
        if edges.dom().contains((a, m)) {
            lower.push(m)
        } else {
            lower
        }
    }
}

/// The neighbours below a place rise, and are the neighbours below it.
proof fn lemma_neighbors_below(edges: Map<(Node, Node), u8>, a: Node, n: nat)
    requires
        n <= 65536,
    ensures
        rises(neighbors_below(edges, a, n)),
        forall|x: Node| #[trigger]
            neighbors_below(edges, a, n).contains(x) <==> (key(x) < n && edges.dom().contains((a, x))),
    decreases n,
{
    if n > 0 {
        let m: Node = (((n - 1) / 256) as u8, ((n - 1) % 256) as u8);
        assert(key(m) == n - 1);
        let lower = neighbors_below(edges, a, (n - 1) as nat);
        let all = neighbors_below(edges, a, n);
        lemma_neighbors_below(edges, a, (n - 1) as nat);
        assert forall|i: int, j: int| 0 <= i < j < all.len() implies key(#[trigger] all[i]) < key(#[trigger] all[j]) by {
            assert(lower.contains(all[i]));
            if j < lower.len() {
                assert(key(lower[i]) < key(lower[j]));
            }
        }
        assert forall|x: Node| #[trigger] all.contains(x) <==> (key(x) < n && edges.dom().contains((a, x))) by {
            if all.contains(x) {
                let i = choose|i: int| 0 <= i < all.len() && all[i] == x;
                if i < lower.len() {
                    assert(lower.contains(all[i]));
                }
            }
            if key(x) < n && edges.dom().contains((a, x)) {
                if key(x) == n - 1 {
                    assert(x == m);
                    assert(all[all.len() - 1] == x);
                } else {
                    assert(lower.contains(x));
                    let i = choose|i: int| 0 <= i < lower.len() && lower[i] == x;
                    assert(all[i] == x);
                }
            }
        }
    }
}

/// The sorted neighbours of a node rise, and are its neighbours.
pub proof fn lemma_sorted_neighbors(edges: Map<(Node, Node), u8>, a: Node)
    ensures
        rises(sorted_neighbors(edges, a)),
        forall|n: Node| #[trigger] sorted_neighbors(edges, a).contains(n) <==> edges.dom().contains((a, n)),
{
    let all = neighbors_below(edges, a, 65536);
    lemma_neighbors_below(edges, a, 65536);
    assert(rises(all) && forall|n: Node| #[trigger] all.contains(n) <==> edges.dom().contains((a, n)));
}

/// The numbers that a table holds for the nodes of a list, from place
/// `from` on, that lie before the node `next` in rising order, together.
pub open spec fn lower_counts(list: Seq<Node>, table: Seq<Option<u128>>, next: Node, from: int) -> nat
    decreases list.len() - from,
{
    if from < 0 || from >= list.len() {
        0
    } else {
        lower_counts(list, table, next, from + 1) + if key(list[from]) < key(next) {
            count_at(table, list[from])
        } else {
            0nat
        }
    }
}

/// The number of walks to the target that come before a walk in the order
/// of their nodes, where the table holds for every node the number of its
/// walks to the target: at every node of the walk, the walks that go on to
/// a node that lies before the one that the walk goes on to.
pub open spec fn walks_before(edges: Map<(Node, Node), u8>, table: Seq<Option<u128>>, walk: Seq<Node>) -> nat
    decreases walk.len(),
{
    if walk.len() <= 1 {
        0
    } else {
        walks_before(edges, table, walk.skip(1)) + lower_counts(sorted_neighbors(edges, walk[0]), table, walk[1], 0)
    }
}

/// From the place of a node on in a rising list, no node lies before it.
pub(crate) proof fn lemma_none_lower(list: Seq<Node>, table: Seq<Option<u128>>, j: int, from: int)
    requires
        rises(list),
        0 <= j < list.len(),
        j <= from,
    ensures
        lower_counts(list, table, list[j], from) == 0,
    decreases list.len() - from,
{
    if from < list.len() {
        lemma_none_lower(list, table, j, from + 1);
        if j < from {
            assert(key(list[j]) < key(list[from]));
        }
    }
}

/// What is picked from a rising list is a node of the list with walks, and
/// the number of the walk among them is `k` less the walks of the nodes
/// passed over, which are the nodes of the list that lie before it.
proof fn lemma_pick(list: Seq<Node>, table: Seq<Option<u128>>, k: int, from: int)
    requires
        rises(list),
        0 <= from <= list.len(),
        k >= 1,
    ensures
        match pick(list, table, k, from) {
            Some((next, left)) => {
                &&& exists|j: int| from <= j < list.len() && list[j] == next
                &&& 1 <= left <= count_at(table, next)
                &&& k == left + lower_counts(list, table, next, from)
            },
            None => true,
        },
    decreases list.len() - from,
{
    if from < list.len() {
        let c = count_at(table, list[from]);
        if c == 0 {
            lemma_pick(list, table, k, from + 1);
            match pick(list, table, k, from + 1) {
                Some((next, left)) => {
                    let j = choose|j: int| from + 1 <= j < list.len() && list[j] == next;
                    assert(from <= j < list.len() && list[j] == next);
                },
                None => {},
            }
        } else if k <= c {
            lemma_none_lower(list, table, from, from);
            assert(from <= from < list.len() && list[from] == list[from]);
        } else {
            lemma_pick(list, table, k - c, from + 1);
            match pick(list, table, k - c, from + 1) {
                Some((next, left)) => {
                    let j = choose|j: int| from + 1 <= j < list.len() && list[j] == next;
                    assert(from <= j < list.len() && list[j] == next);
                    assert(key(list[from]) < key(list[j]));
                },
                None => {},
            }
        }
    }
}

/// A walk with a node put before it, from which an edge leads to its first
/// node, is a walk, and the walks that come before it are those that come
/// before the walk and those that go on from the new node to a node before
/// the walk's first.
proof fn lemma_walk_extends(
    edges: Map<(Node, Node), u8>,
    table: Seq<Option<u128>>,
    current: Node,
    tail: Seq<Node>,
    target: Node,
)
    requires
        tail.len() > 0,
        edges.dom().contains((current, tail[0])),
        joins(edges, tail, tail[0], target),
    ensures
        joins(edges, seq![current] + tail, current, target),
        walks_before(edges, table, seq![current] + tail) == walks_before(edges, table, tail) + lower_counts(
            sorted_neighbors(edges, current),
            table,
            tail[0],
            0,
        ),
{
    lemma_walk_prepend(edges, current, tail, target);
    lemma_walks_before_prepend(edges, table, current, tail);
}

/// A walk with a node put before it, from which an edge leads to its first
/// node, is a walk from that node.
proof fn lemma_walk_prepend(edges: Map<(Node, Node), u8>, current: Node, tail: Seq<Node>, target: Node)
    requires
        tail.len() > 0,
        edges.dom().contains((current, tail[0])),
        joins(edges, tail, tail[0], target),
    ensures
        joins(edges, seq![current] + tail, current, target),
{
    let walk = seq![current] + tail;
    assert forall|i: int| 0 <= i < walk.len() - 1 implies edges.dom().contains((#[trigger] walk[i], walk[i + 1])) by {
        if i > 0 {
            assert(walk[i] == tail[i - 1]);
            assert(walk[i + 1] == tail[i]);
            assert(edges.dom().contains((tail[i - 1], tail[i - 1 + 1])));
        }
    }
    assert(walk.last() == tail.last());
}

/// The walks that come before a walk with a node put before it.
proof fn lemma_walks_before_prepend(
    edges: Map<(Node, Node), u8>,
    table: Seq<Option<u128>>,
    current: Node,
    tail: Seq<Node>,
)
    requires
        tail.len() > 0,
    ensures
        walks_before(edges, table, seq![current] + tail) == walks_before(edges, table, tail) + lower_counts(
            sorted_neighbors(edges, current),
            table,
            tail[0],
            0,
        ),
{
    let walk = seq![current] + tail;
    assert(walk.skip(1) =~= tail);
    assert(walk[1] == tail[0]);
    assert(walk[0] == current);
}

/// What is picked among the sorted neighbours of a node is one of them,
/// with walks, and the number of the walk among them is `k` less the walks
/// of the neighbours that lie before it.
proof fn lemma_pick_neighbor(edges: Map<(Node, Node), u8>, table: Seq<Option<u128>>, current: Node, k: int)
    requires
        k >= 1,
    ensures
        match pick(sorted_neighbors(edges, current), table, k, 0) {
            Some((next, left)) => {
                &&& edges.dom().contains((current, next))
                &&& 1 <= left <= count_at(table, next)
                &&& k == left + lower_counts(sorted_neighbors(edges, current), table, next, 0)
            },
            None => true,
        },
{
    let list = sorted_neighbors(edges, current);
    lemma_sorted_neighbors(edges, current);
    lemma_pick(list, table, k, 0);
    match pick(list, table, k, 0) {
        Some((next, left)) => {
            let j = choose|j: int| 0 <= j < list.len() && list[j] == next;
            assert(list.contains(next));
        },
        None => {},
    }
}

/// The nodes that follow a node on its `k`-th walk make, after the node, a
/// walk from it to the target, and `k` less one walks come before that
/// walk.
proof fn lemma_kth_rest(
    edges: Map<(Node, Node), u8>,
    table: Seq<Option<u128>>,
    current: Node,
    target: Node,
    k: int,
    fuel: nat,
)
    requires
        count_at(table, target) == 1,
        1 <= k <= count_at(table, current),
    ensures
        match kth_rest(edges, table, current, target, k, fuel) {
            Some(rest) => joins(edges, seq![current] + rest, current, target) && walks_before(
                edges,
                table,
                seq![current] + rest,
            ) == k - 1,
            None => true,
        },
    decreases fuel,
{
    if current == target {
        assert(seq![current] + Seq::<Node>::empty() =~= seq![current]);
    } else if fuel > 0 {
        lemma_pick_neighbor(edges, table, current, k);
        match pick(sorted_neighbors(edges, current), table, k, 0) {
            Some((next, left)) => {
                lemma_kth_rest(edges, table, next, target, left, (fuel - 1) as nat);
                match kth_rest(edges, table, next, target, left, (fuel - 1) as nat) {
                    Some(rest) => {
                        let tail = seq![next] + rest;
                        assert(tail[0] == next);
                        lemma_walk_extends(edges, table, current, tail, target);
                        assert(seq![current] + (seq![next] + rest) == seq![current] + tail);
                    },
                    None => {},
                }
            },
            None => {},
        }
    }
}

/// The `k`-th walk is a walk from the source to the target over edges of
/// the graph, and, by a table that holds one for the target, `k` less one
/// walks come before it in the order of their nodes.
pub proof fn lemma_kth_path_is_kth(
    edges: Map<(Node, Node), u8>,
    table: Seq<Option<u128>>,
    source: Node,
    target: Node,
    k: int,
)
    requires
        count_at(table, target) == 1,
    ensures
        match kth_path(edges, table, source, target, k) {
            Some(walk) => {
                &&& joins(edges, walk, source, target)
                &&& 1 <= k <= count_at(table, source)
                &&& walks_before(edges, table, walk) == k - 1
            },
            None => true,
        },
{
    if 1 <= k <= count_at(table, source) && source != target {
        lemma_kth_rest(edges, table, source, target, k, 65536);
    }
}

/// The nodes of steps.
pub open spec fn nodes_of(path: Seq<StaircaseStep>) -> Seq<Node> {
    Seq::new(path.len(), |i: int| (path[i].0, path[i].1))
}

/// Whether a graph has no `k`-th walk from the source to the target: its
/// walks cannot be counted, or the table of their numbers leads to none.
pub open spec fn no_kth_path(
    edges: Map<(Node, Node), u8>,
    nodes: Set<Node>,
    source: Node,
    target: Node,
    k: int,
) -> bool {
    uncounted(edges, nodes, target) || exists|table: Seq<Option<u128>>| #[trigger]
        tallied(edges, nodes, target, table) && kth_path(edges, table, source, target, k) is None
}

/// The `k`-th walk from the source to the target.
pub fn find_kth_path(
    g: &StepGraph,
    source: StaircaseStep,
    target: StaircaseStep,
    k: u128,
    path_counts: &Vec<Option<u128>>,
) -> (r: Option<Vec<StaircaseStep>>)
    requires
        path_counts.len() == 65536,
    ensures
        match r {
            Some(path) => kth_path(
                graph_edges(*g),
                path_counts@,
                (source.0, source.1),
                (target.0, target.1),
                k as int,
            ) == Some(nodes_of(path@)),
            None => kth_path(graph_edges(*g), path_counts@, (source.0, source.1), (target.0, target.1), k as int)
                is None,
        },
{
    let from: Node = (source.0, source.1);
    let goal: Node = (target.0, target.1);
    let total: u128 = match path_counts[key_of(from)] {
        Some(c) => c,
        None => 0,
    };
    if k == 0 || k > total {
        return None;
    }
    if from.0 == goal.0 && from.1 == goal.1 {
        if k == 1 {
            let mut path: Vec<StaircaseStep> = Vec::new();
            path.push(source);
            assert(nodes_of(path@) =~= seq![from]);
            return Some(path);
        } else {
            return None;
        }
    }
    let ghost edges = graph_edges(*g);
    let ghost whole = kth_rest(edges, path_counts@, from, goal, k as int, 65536);
    let mut path: Vec<StaircaseStep> = Vec::new();
    path.push(source);
    let mut current: Node = from;
    let mut left: u128 = k;
    let mut fuel: usize = 65536;
    let ghost mut walked: Seq<Node> = Seq::empty();
    loop
        invariant
            edges == graph_edges(*g),
            from == (source.0, source.1),
            goal == (target.0, target.1),
            path_counts.len() == 65536,
            fuel <= 65536,
            nodes_of(path@) == seq![from] + walked,
            whole == match kth_rest(edges, path_counts@, current, goal, left as int, fuel as nat) {
                Some(rest) => Some(walked + rest),
                None => None,
            },
            whole == kth_rest(edges, path_counts@, from, goal, k as int, 65536),
            from != goal,
            k >= 1,
            k <= count_at(path_counts@, from),
        decreases fuel,
    {
        if current.0 == goal.0 && current.1 == goal.1 {
            assert(current == goal);
            assert(walked + Seq::<Node>::empty() =~= walked);
            return Some(path);
        }
        assert(current != goal);
        if fuel == 0 {
            return None;
        }
        let list = graph_neighbor_list(g, current);
        let sorted = sorted_nodes(&list);
        proof {
            let spec_list = sorted_neighbors(edges, current);
            assert forall|n: Node| #[trigger] sorted@.contains(n) <==> edges.dom().contains((current, n)) by {
                assert(neighbors_of(edges, current).contains(n) <==> edges.dom().contains((current, n)));
            }
            assert(rises(spec_list) && forall|n: Node| #[trigger]
                spec_list.contains(n) <==> edges.dom().contains((current, n)));
            lemma_rising_is_one(sorted@, spec_list);
        }
        let ghost k0 = left;
        let mut found: Option<Node> = None;
        let mut j: usize = 0;
        while j < sorted.len()
            invariant_except_break
                j <= sorted.len(),
                path_counts.len() == 65536,
                found is None,
                pick(sorted@, path_counts@, k0 as int, 0) == pick(sorted@, path_counts@, left as int, j as int),
            ensures
                match found {
                    Some(next) => pick(sorted@, path_counts@, k0 as int, 0) == Some((next, left as int)),
                    None => pick(sorted@, path_counts@, k0 as int, 0) is None,
                },
            decreases sorted.len() - j,
        {
            let next = sorted[j];
            let c: u128 = match path_counts[key_of(next)] {
                Some(c) => c,
                None => 0,
            };
            if c != 0 {
                if left <= c {
                    found = Some(next);
                    break ;
                } else {
                    left = left - c;
                }
            }
            j += 1;
        }
        match found {
            Some(next) => {
                let ghost shorter = path@;
                path.push(StaircaseStep(next.0, next.1));
                proof {
                    assert(nodes_of(path@) =~= nodes_of(shorter).push(next));
                    assert(nodes_of(path@) =~= seq![from] + walked.push(next));
                    match kth_rest(edges, path_counts@, next, goal, left as int, (fuel - 1) as nat) {
                        Some(rest) => {
                            assert(walked + (seq![next] + rest) =~= walked.push(next) + rest);
                        },
                        None => {},
                    }
                    walked = walked.push(next);
                }
                current = next;
                fuel = fuel - 1;
            },
            None => {
                return None;
            },
        }
    }
}

/// The `k`-th way to climb from the foot of the main staircase to its last
/// step over all staircases, where ways are ordered by their steps. `None`
/// where the last step is above 255, where a single move leads further than
/// a byte counts, and where the graph with such moves for edges has no
/// `k`-th way.
pub fn solve_for_kth_path(g: &StepGraph, end: usize, moves: &[usize], k: u128) -> (r: Option<Vec<StaircaseStep>>)
    ensures
        match r {
            Some(path) => end <= 255 && exists|wide: Map<(Node, Node), u8>, table: Seq<Option<u128>>|
                #![trigger tallied(wide, wide_nodes(*g, moves@), (1u8, end as u8), table)]
                {
                    &&& contracted(graph_edges(*g), moves@, graph_nodes(*g), wide)
                    &&& !has_cycle(wide)
                    &&& tallied(wide, wide_nodes(*g, moves@), (1u8, end as u8), table)
                    &&& kth_path(wide, table, (1u8, 0u8), (1u8, end as u8), k as int) == Some(nodes_of(path@))
                },
            None => end > 255 || (exists|a: Node, b: Node, d: int|
                graph_nodes(*g).contains(a) && #[trigger] is_shortcut(graph_edges(*g), moves@, a, b, d) && d > 255)
                || (exists|wide: Map<(Node, Node), u8>| #[trigger]
                no_kth_path(wide, wide_nodes(*g, moves@), (1u8, 0u8), (1u8, end as u8), k as int) && contracted(
                    graph_edges(*g),
                    moves@,
                    graph_nodes(*g),
                    wide,
                )),
        },
{
    if end > 255 {
        return None;
    }
    let wide = match contract_graph(g, moves) {
        Some(wide) => wide,
        None => { return None; },
    };
    let start = StaircaseStep(1, 0);
    let target = StaircaseStep(1, end as u8);
    let ghost edges = graph_edges(wide);
    let ghost nodes = graph_nodes(wide);
    match calculate_path_counts(&wide, target) {
        Ok(table) => {
            let reachable = match table[key_of((1, 0))] {
                Some(c) => c != 0,
                None => false,
            };
            if !reachable {
                proof {
                    assert(count_at(table@, (1u8, 0u8)) == 0);
                    assert(kth_path(edges, table@, (1u8, 0u8), (1u8, end as u8), k as int) is None);
                    assert(no_kth_path(edges, nodes, (1u8, 0u8), (1u8, end as u8), k as int));
                }
                return None;
            }
            let found = find_kth_path(&wide, start, target, k, &table);
            proof {
                if found is None {
                    assert(no_kth_path(edges, nodes, (1u8, 0u8), (1u8, end as u8), k as int));
                }
            }
            found
        },
        Err(_) => {
            proof {
                assert(uncounted(edges, nodes, (1u8, end as u8)));
                assert(no_kth_path(edges, nodes, (1u8, 0u8), (1u8, end as u8), k as int));
            }
            None
        },
    }
}

/// The graph of a plan.
pub fn plan_graph(end: usize, staircases: &[Staircase]) -> (r: Option<StepGraph>)
    ensures
        match r {
            Some(g) => {
                &&& plan_fits(end, staircases@)
                &&& graph_edges(g) == drawn(Map::<(Node, Node), u8>::empty(), plan_edges(end, staircases@))
                &&& graph_nodes(g) == joined(Set::<Node>::empty(), plan_edges(end, staircases@))
            },
            None => !plan_fits(end, staircases@),
        },
{
    let mut g = graph_new();
    if construct_graph(&mut g, end, staircases) {
        Some(g)
    } else {
        None
    }
}

/// Steps as text, with a hyphen between each two.
pub open spec fn path_text_spec(path: Seq<StaircaseStep>) -> Seq<char>
    decreases path.len(),
{
    if path.len() == 0 {
        Seq::empty()
    } else {
        let step = seq!['S'] + as_chars(decimal(path.last().0 as nat)) + seq!['_'] + as_chars(
            decimal(path.last().1 as nat),
        );
        if path.len() == 1 {
            step
        } else {
            path_text_spec(path.drop_last()) + seq!['-'] + step
        }
    }
}

/// Steps as text, with a hyphen between each two.
pub fn path_text(path: &Vec<StaircaseStep>) -> (r: String)
    ensures
        r@ == path_text_spec(path@),
{
    let mut out = String::new();
    let mut i: usize = 0;
    while i < path.len()
        invariant
            i <= path.len(),
            out@ == path_text_spec(path@.take(i as int)),
        decreases path.len() - i,
    {
        proof {
            assert(path@.take(i + 1).drop_last() =~= path@.take(i as int));
            assert(path@.take(i + 1).last() == path[i as int]);
        }
        let ghost before = out@;
        if i > 0 {
            out.push('-');
        }
        out.push('S');
        let digits = to_decimal(path[i].0 as u64);
        push_bytes(&mut out, digits.as_slice());
        out.push('_');
        let digits = to_decimal(path[i].1 as u64);
        push_bytes(&mut out, digits.as_slice());
        proof {
            let step = seq!['S'] + as_chars(decimal(path[i as int].0 as nat)) + seq!['_'] + as_chars(
                decimal(path[i as int].1 as nat),
            );
            if i > 0 {
                assert(out@ =~= before + seq!['-'] + step);
            } else {
                assert(out@ =~= step);
            }
        }
        i += 1;
    }
    assert(path@.take(path.len() as int) =~= path@);
    out
}

} // verus!
