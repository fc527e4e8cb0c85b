//! A binary search tree of named nodes, kept in an arena.

use vstd::prelude::*;
use vstd::string::{StringExecFns, StringSliceAdditionalSpecFns};
use slab::Slab;
use crate::text::{
    filled, lemma_filled, lines, lines_spec, parse_unsigned, parse_unsigned_spec, same_bytes, split_once,
    split_once_spec,
};

verus! {

/// A node: its name and number, and the places of its children and of its
/// parent in the arena.
#[derive(Clone, Copy, Debug)]
pub struct Tree {
    pub code: &'static str,
    pub id: u32,
    pub left: Option<usize>,
    pub right: Option<usize>,
    pub parent: Option<usize>,
}

/// `slab::Slab`, a store that gives each value a place of its own. Verus
/// sees nothing inside it; what it holds is named by `arena_nodes`.
#[verifier::external_type_specification]
#[verifier::external_body]
#[verifier::reject_recursive_types(T)]
pub struct ExSlab<T>(Slab<T>);

/// The arena that holds the nodes of a tree.
pub type Arena = Slab<Tree>;

/// The nodes that an arena holds, by their places.
pub uninterp spec fn arena_nodes(arena: Slab<Tree>) -> Map<int, Tree>;

/// `Slab::new`: an arena that holds nothing.
#[verifier::external_body]
fn arena_new() -> (r: Arena)
    ensures
        arena_nodes(r).dom() == Set::<int>::empty(),
{
    Slab::new()
}

/// `Slab::insert`: stores a node at a place that held none, and returns the
/// place.
#[verifier::external_body]
fn arena_insert(arena: &mut Slab<Tree>, node: Tree) -> (key: usize)
    ensures
        !arena_nodes(*old(arena)).dom().contains(key as int),
        arena_nodes(*final(arena)) == arena_nodes(*old(arena)).insert(key as int, node),
{
    arena.insert(node)
}

/// `Slab::get`: the node at a place, if the place holds one.
#[verifier::external_body]
fn arena_get(arena: &Slab<Tree>, key: usize) -> (r: Option<Tree>)
    ensures
        r == if arena_nodes(*arena).dom().contains(key as int) {
            Some(arena_nodes(*arena)[key as int])
        } else {
            None
        },
{
    arena.get(key).copied()
}

/// `Slab::get_mut`: overwrites the node at a place that holds one, and says
/// whether the place did.
#[verifier::external_body]
fn arena_put(arena: &mut Slab<Tree>, key: usize, node: Tree) -> (r: bool)
    ensures
        r == arena_nodes(*old(arena)).dom().contains(key as int),
        arena_nodes(*final(arena)) == if r {
            arena_nodes(*old(arena)).insert(key as int, node)
        } else {
            arena_nodes(*old(arena))
        },
{
    match arena.get_mut(key) {
        Some(slot) => {
            *slot = node;
            true
        },
        None => false,
    }
}

/// `Slab::iter`: the places that hold a node, in rising order, each with
/// its node.
#[verifier::external_body]
fn arena_entries(arena: &Slab<Tree>) -> (r: Vec<(usize, Tree)>)
    ensures
        forall|i: int|
            0 <= i < r.len() ==> arena_nodes(*arena).dom().contains((#[trigger] r[i]).0 as int) && arena_nodes(
                *arena,
            )[r[i].0 as int] == r[i].1,
        forall|i: int, j: int| 0 <= i < j < r.len() ==> (#[trigger] r[i]).0 < (#[trigger] r[j]).0,
        forall|k: int|
            arena_nodes(*arena).dom().contains(k) ==> exists|i: int| 0 <= i < r.len() && (#[trigger] r[i]).0 == k,
{
    arena.iter().map(|(key, node)| (key, *node)).collect()
}

/// `core::str::from_utf8`: the text that bytes encode, if they encode one.
#[verifier::external_body]
fn text_of<'a>(bytes: &'a [u8]) -> (r: Option<&'a str>)
    ensures
        match r {
            Some(s) => s.spec_bytes() == bytes@ && vstd::utf8::valid_utf8(bytes@),
            None => !vstd::utf8::valid_utf8(bytes@),
        },
{
    core::str::from_utf8(bytes).ok()
}

impl Tree {
    /// A node without children.
    pub fn new_leaf(code: &'static str, id: u32, parent: Option<usize>) -> (r: Self)
        ensures
            r.code == code,
            r.id == id,
            r.left is None,
            r.right is None,
            r.parent == parent,
    {
        Self { code, id, left: None, right: None, parent }
    }

    /// The number of nodes on the longest way down from this node, itself
    /// counted. Links are followed no further than the arena has nodes, and
    /// a link to a place that holds no node counts as none.
    pub fn height(&self, arena: &Arena) -> (r: usize)
        ensures
            r == height_within(arena_nodes(*arena), *self, depth_limit(arena_nodes(*arena))),
    {
        let fuel = node_count(arena);
        height_to(self, arena, fuel)
    }

    /// Adds the number of this node to the sum of its layer, and those of
    /// the nodes below it to the sums of the layers below, and says whether
    /// every layer had a sum and every sum fits 32 bits. Links are followed
    /// no further than the arena has nodes.
    pub fn layer_sums(&self, arena: &Arena, layer: usize, layer_sums: &mut Vec<u32>) -> (r: bool)
        ensures
            match sums_within(arena_nodes(*arena), *self, layer as int, old(layer_sums)@, depth_limit(arena_nodes(*arena))) {
                Some(sums) => r && final(layer_sums)@ == sums,
                None => !r,
            },
    {
        let fuel = node_count(arena);
        sums_to(self, arena, layer, layer_sums, fuel)
    }
}

/// The number of links that are followed at most: the number of nodes of
/// the arena, or one less than the greatest length where there are more.
pub open spec fn depth_limit(nodes: Map<int, Tree>) -> nat {
    if nodes.dom().finite() && nodes.dom().len() < usize::MAX {
        nodes.dom().len()
    } else {
        (usize::MAX - 1) as nat
    }
}

/// The node that a link leads to, if it leads to one.
pub open spec fn linked(nodes: Map<int, Tree>, link: Option<usize>) -> Option<Tree> {
    match link {
        Some(i) => if nodes.dom().contains(i as int) {
            Some(nodes[i as int])
        } else {
            None
        },
        None => None,
    }
}

/// The height of a node where links are followed `fuel` times at most.
pub open spec fn height_within(nodes: Map<int, Tree>, node: Tree, fuel: nat) -> nat
    decreases fuel,
{
    if fuel == 0 {
        1
    } else {
        let left = match linked(nodes, node.left) {
            Some(child) => height_within(nodes, child, (fuel - 1) as nat),
            None => 0,
        };
        let right = match linked(nodes, node.right) {
            Some(child) => height_within(nodes, child, (fuel - 1) as nat),
            None => 0,
        };
        if left >= right {
            1 + left
        } else {
            1 + right
        }
    }
}

/// A height is at most one more than the links followed.
proof fn lemma_height_bounded(nodes: Map<int, Tree>, node: Tree, fuel: nat)
    ensures
        1 <= height_within(nodes, node, fuel) <= fuel + 1,
    decreases fuel,
{
    if fuel > 0 {
        match linked(nodes, node.left) {
            Some(child) => lemma_height_bounded(nodes, child, (fuel - 1) as nat),
            None => {},
        }
        match linked(nodes, node.right) {
            Some(child) => lemma_height_bounded(nodes, child, (fuel - 1) as nat),
            None => {},
        }
    }
}

/// The sums of the layers after the number of a node is added to the sum of
/// its layer and those of the nodes below it to the sums below, where links
/// are followed `fuel` times at most; `None` where a layer has no sum or a
/// sum does not fit 32 bits.
pub open spec fn sums_within(nodes: Map<int, Tree>, node: Tree, layer: int, sums: Seq<u32>, fuel: nat) -> Option<
    Seq<u32>,
>
    decreases fuel,
{
    if !(0 <= layer < sums.len()) || sums[layer] + node.id > u32::MAX {
        None
    } else {
        let own = sums.update(layer, (sums[layer] + node.id) as u32);
        if fuel == 0 {
            Some(own)
        } else {
            let after_left = match linked(nodes, node.left) {
                Some(child) => sums_within(nodes, child, layer + 1, own, (fuel - 1) as nat),
                None => Some(own),
            };
            match after_left {
                Some(mid) => match linked(nodes, node.right) {
                    Some(child) => sums_within(nodes, child, layer + 1, mid, (fuel - 1) as nat),
                    None => Some(mid),
                },
                None => None,
            }
        }
    }
}

/// The number of links that are followed at most in an arena.
fn node_count(arena: &Arena) -> (r: usize)
    ensures
        r == depth_limit(arena_nodes(*arena)),
{
    let entries = arena_entries(arena);
    proof {
        lemma_entries_count(arena_nodes(*arena), entries@);
    }
    if entries.len() == usize::MAX {
        usize::MAX - 1
    } else {
        entries.len()
    }
}

/// The places of an arena are as many as its entries, which list each
/// place once.
proof fn lemma_entries_count(nodes: Map<int, Tree>, entries: Seq<(usize, Tree)>)
    requires
        forall|i: int| 0 <= i < entries.len() ==> nodes.dom().contains((#[trigger] entries[i]).0 as int),
        forall|i: int, j: int| 0 <= i < j < entries.len() ==> (#[trigger] entries[i]).0 < (#[trigger] entries[j]).0,
        forall|k: int| nodes.dom().contains(k) ==> exists|i: int| 0 <= i < entries.len() && (#[trigger] entries[i]).0 == k,
    ensures
        nodes.dom().finite(),
        nodes.dom().len() == entries.len(),
    decreases entries.len(),
{
    if entries.len() == 0 {
        assert(nodes.dom() =~= Set::<int>::empty());
    } else {
        let last = entries.last().0 as int;
        let fewer = nodes.remove(last);
        let shorter = entries.drop_last();
        assert forall|k: int| fewer.dom().contains(k) implies exists|i: int|
            0 <= i < shorter.len() && (#[trigger] shorter[i]).0 == k by {
            let i = choose|i: int| 0 <= i < entries.len() && (#[trigger] entries[i]).0 == k;
            assert(shorter[i] == entries[i]);
        }
        assert forall|i: int| 0 <= i < shorter.len() implies fewer.dom().contains((#[trigger] shorter[i]).0 as int) by {
            assert(entries[i].0 < entries[entries.len() - 1].0);
        }
        assert forall|i: int, j: int| 0 <= i < j < shorter.len() implies (#[trigger] shorter[i]).0 < (
        #[trigger] shorter[j]).0 by {
            assert(entries[i].0 < entries[j].0);
        }
        lemma_entries_count(fewer, shorter);
        assert(nodes.dom().contains(entries[entries.len() - 1].0 as int));
        assert(nodes.dom() =~= fewer.dom().insert(last));
    }
}

/// The height of a node where links are followed `fuel` times at most.
fn height_to(node: &Tree, arena: &Arena, fuel: usize) -> (r: usize)
    requires
        fuel < usize::MAX,
    ensures
        r == height_within(arena_nodes(*arena), *node, fuel as nat),
    decreases fuel,
{
    if fuel == 0 {
        return 1;
    }
    let left = match node.left {
        Some(i) => match arena_get(arena, i) {
            Some(child) => height_to(&child, arena, fuel - 1),
            None => 0,
        },
        None => 0,
    };
    let right = match node.right {
        Some(i) => match arena_get(arena, i) {
            Some(child) => height_to(&child, arena, fuel - 1),
            None => 0,
        },
        None => 0,
    };
    proof {
        match linked(arena_nodes(*arena), node.left) {
            Some(child) => lemma_height_bounded(arena_nodes(*arena), child, (fuel - 1) as nat),
            None => {},
        }
        match linked(arena_nodes(*arena), node.right) {
            Some(child) => lemma_height_bounded(arena_nodes(*arena), child, (fuel - 1) as nat),
            None => {},
        }
    }
    if left >= right {
        1 + left
    } else {
        1 + right
    }
}

/// Adds the numbers of a node and of those below it to the sums of their
/// layers, where links are followed `fuel` times at most.
fn sums_to(node: &Tree, arena: &Arena, layer: usize, sums: &mut Vec<u32>, fuel: usize) -> (r: bool)
    ensures
        match sums_within(arena_nodes(*arena), *node, layer as int, old(sums)@, fuel as nat) {
            Some(s) => r && final(sums)@ == s,
            None => !r,
        },
    decreases fuel,
{
    if layer >= sums.len() {
        return false;
    }
    let sum: u32 = match sums[layer].checked_add(node.id) {
        Some(s) => s,
        None => { return false; },
    };
    sums.set(layer, sum);
    if fuel == 0 {
        return true;
    }
    if layer == usize::MAX {
        // the vector has no such layer
        match node.left {
            Some(i) => if arena_get(arena, i).is_some() {
                return false;
            },
            None => {},
        }
        match node.right {
            Some(i) => if arena_get(arena, i).is_some() {
                return false;
            },
            None => {},
        }
        return true;
    }
    match node.left {
        Some(i) => match arena_get(arena, i) {
            Some(child) => if !sums_to(&child, arena, layer + 1, sums, fuel - 1) {
                return false;
            },
            None => {},
        },
        None => {},
    }
    match node.right {
        Some(i) => match arena_get(arena, i) {
            Some(child) => sums_to(&child, arena, layer + 1, sums, fuel - 1),
            None => true,
        },
        None => true,
    }
}

/// The place of the first entry whose node has the given name.
pub open spec fn find_code(entries: Seq<(usize, Tree)>, code: Seq<u8>, from: int) -> Option<usize>
    decreases entries.len() - from,
{
    if from < 0 || from >= entries.len() {
        None
    } else if entries[from].1.code.spec_bytes() == code {
        Some(entries[from].0)
    } else {
        find_code(entries, code, from + 1)
    }
}

/// The places on the way up from a place to the root, the first place
/// first, where links are followed `fuel` times at most.
pub open spec fn way_up(nodes: Map<int, Tree>, from: Option<usize>, fuel: nat) -> Seq<usize>
    decreases fuel,
{
    if fuel == 0 {
        Seq::empty()
    } else {
        match from {
            Some(i) => if nodes.dom().contains(i as int) {
                seq![i] + way_up(nodes, nodes[i as int].parent, (fuel - 1) as nat)
            } else {
                Seq::empty()
            },
            None => Seq::empty(),
        }
    }
}

/// The places on the way up to the root from the node with the given name:
/// that node's place, its parent's, and so on. Of several nodes with the
/// name, the one at the least place counts; without any, the way is empty.
pub fn parents(arena: &Arena, code: &str) -> (r: Vec<usize>)
    ensures
        exists|entries: Seq<(usize, Tree)>|
            #![trigger find_code(entries, code.spec_bytes(), 0)]
            {
                &&& listing(arena_nodes(*arena), entries)
                &&& r@ == way_up(
                    arena_nodes(*arena),
                    find_code(entries, code.spec_bytes(), 0),
                    depth_limit(arena_nodes(*arena)),
                )
            },
{
    let entries = arena_entries(arena);
    proof {
        lemma_entries_count(arena_nodes(*arena), entries@);
    }
    let mut current: Option<usize> = None;
    let mut k: usize = 0;
    while k < entries.len()
        invariant_except_break
            k <= entries.len(),
            current is None,
            find_code(entries@, code.spec_bytes(), 0) == find_code(entries@, code.spec_bytes(), k as int),
        ensures
            current == find_code(entries@, code.spec_bytes(), 0),
        decreases entries.len() - k,
    {
        if same_bytes(entries[k].1.code.as_bytes(), code.as_bytes()) {
            current = Some(entries[k].0);
            break ;
        }
        k += 1;
    }
    let fuel: usize = if entries.len() == usize::MAX {
        usize::MAX - 1
    } else {
        entries.len()
    };
    let ghost start = current;
    let mut left: usize = fuel;
    let mut out: Vec<usize> = Vec::new();
    loop
        invariant
            left <= fuel,
            way_up(arena_nodes(*arena), start, fuel as nat) == out@ + way_up(
                arena_nodes(*arena),
                current,
                left as nat,
            ),
        ensures
            out@ == way_up(arena_nodes(*arena), start, fuel as nat),
        decreases left,
    {
        if left == 0 {
            break ;
        }
        match current {
            Some(i) => match arena_get(arena, i) {
                Some(node) => {
                    let ghost before = out@;
                    out.push(i);
                    assert(out@ + way_up(arena_nodes(*arena), node.parent, (left - 1) as nat) =~= before + (
                    seq![i] + way_up(arena_nodes(*arena), node.parent, (left - 1) as nat)));
                    current = node.parent;
                    left = left - 1;
                },
                None => {
                    break ;
                },
            },
            None => {
                break ;
            },
        }
    }
    assert(listing(arena_nodes(*arena), entries@));
    out
}

/// Whether entries list the places of an arena in rising order, each with
/// its node.
pub open spec fn listing(nodes: Map<int, Tree>, entries: Seq<(usize, Tree)>) -> bool {
    &&& forall|i: int|
        0 <= i < entries.len() ==> nodes.dom().contains((#[trigger] entries[i]).0 as int) && nodes[entries[i].0
            as int] == entries[i].1
    &&& forall|i: int, j: int| 0 <= i < j < entries.len() ==> (#[trigger] entries[i]).0 < (#[trigger] entries[j]).0
    &&& forall|k: int|
        nodes.dom().contains(k) ==> exists|i: int| 0 <= i < entries.len() && (#[trigger] entries[i]).0 == k
}

/// What a line of the form `name | number` writes.
pub open spec fn parse_node_spec(line: Seq<u8>) -> Option<(Seq<u8>, u32)> {
    match split_once_spec(line, seq![0x20u8, 0x7cu8, 0x20u8]) {
        Some((name, number)) => match parse_unsigned_spec(number, u32::MAX as nat) {
            Some(id) => if vstd::utf8::valid_utf8(name) {
                Some((name, id as u32))
            } else {
                None
            },
            None => None,
        },
        None => None,
    }
}

/// Reads a line of the form `name | number`.
pub fn parse_node(line: &str) -> (r: Option<(&str, u32)>)
    ensures
        match r {
            Some((name, id)) => parse_node_spec(line.spec_bytes()) == Some((name.spec_bytes(), id)),
            None => parse_node_spec(line.spec_bytes()) is None,
        },
{
    node_of(line.as_bytes())
}

/// Reads the bytes of a line of the form `name | number`.
pub fn node_of<'a>(line: &'a [u8]) -> (r: Option<(&'a str, u32)>)
    ensures
        match r {
            Some((name, id)) => parse_node_spec(line@) == Some((name.spec_bytes(), id)),
            None => parse_node_spec(line@) is None,
        },
{
    let bar: [u8; 3] = [0x20, 0x7c, 0x20];
    assert(bar@ =~= seq![0x20u8, 0x7cu8, 0x20u8]);
    match split_once(line, bar.as_slice()) {
        Some((name, number)) => match parse_unsigned(number, u32::MAX as u64) {
            Some(id) => match text_of(name) {
                Some(code) => Some((code, id as u32)),
                None => None,
            },
            None => None,
        },
        None => None,
    }
}

/// Where a new node with the given number is hung into the tree below a
/// place: the place of its parent, and whether it becomes the left child. A
/// lesser number goes left, any other right. `None` where a link leads to a
/// place that holds no node, and where more links would be followed than
/// `fuel`.
pub open spec fn hanging(nodes: Map<int, Tree>, at: usize, id: u32, fuel: nat) -> Option<(usize, bool)>
    decreases fuel,
{
    if fuel == 0 || !nodes.dom().contains(at as int) {
        None
    } else {
        let node = nodes[at as int];
        if id < node.id {
            match node.left {
                Some(next) => hanging(nodes, next, id, (fuel - 1) as nat),
                None => Some((at, true)),
            }
        } else {
            match node.right {
                Some(next) => hanging(nodes, next, id, (fuel - 1) as nat),
                None => Some((at, false)),
            }
        }
    }
}

/// The nodes of an arena after a leaf at place `key` is hung below the node
/// at place `parent`, on the given side.
pub open spec fn hung(nodes: Map<int, Tree>, key: usize, parent: usize, left: bool, code: &'static str, id: u32) -> Map<
    int,
    Tree,
> {
    let leaf = Tree { code, id, left: None, right: None, parent: Some(parent) };
    let above = nodes[parent as int];
    let linked = if left {
        Tree { code: above.code, id: above.id, left: Some(key), right: above.right, parent: above.parent }
    } else {
        Tree { code: above.code, id: above.id, left: above.left, right: Some(key), parent: above.parent }
    };
    nodes.insert(key as int, leaf).insert(parent as int, linked)
}

/// Whether `after` is what `before` becomes when a node with the given name
/// and number is inserted into the search tree below `root`: a leaf at a
/// place that held no node, hung where `hanging` says.
pub open spec fn inserted(before: Map<int, Tree>, after: Map<int, Tree>, root: usize, code: &'static str, id: u32) -> bool {
    match hanging(before, root, id, depth_limit(before)) {
        Some((parent, left)) => exists|key: usize|
            !before.dom().contains(key as int) && after == #[trigger] hung(before, key, parent, left, code, id),
        None => false,
    }
}

/// Inserts a node with the given name and number into the search tree below
/// `root`, and returns its place; `None`, and the arena as it was, where
/// `hanging` finds no place for it.
pub fn insert(arena: &mut Arena, root: usize, code: &'static str, id: u32) -> (r: Option<usize>)
    ensures
        match hanging(arena_nodes(*old(arena)), root, id, depth_limit(arena_nodes(*old(arena)))) {
            Some((parent, left)) => {
                &&& r is Some
                &&& !arena_nodes(*old(arena)).dom().contains(r->Some_0 as int)
                &&& arena_nodes(*final(arena)) == hung(arena_nodes(*old(arena)), r->Some_0, parent, left, code, id)
                &&& inserted(arena_nodes(*old(arena)), arena_nodes(*final(arena)), root, code, id)
            },
            None => r is None && arena_nodes(*final(arena)) == arena_nodes(*old(arena)),
        },
{
    let fuel = node_count(arena);
    let ghost nodes = arena_nodes(*arena);
    let mut current: usize = root;
    let mut left: usize = fuel;
    loop
        invariant
            nodes == arena_nodes(*arena),
            *arena == *old(arena),
            left <= fuel,
            fuel == depth_limit(nodes),
            hanging(nodes, root, id, fuel as nat) == hanging(nodes, current, id, left as nat),
        decreases left,
    {
        if left == 0 {
            return None;
        }
        let node = match arena_get(arena, current) {
            Some(node) => node,
            None => { return None; },
        };
        let goes_left = id < node.id;
        let next = if goes_left {
            node.left
        } else {
            node.right
        };
        match next {
            Some(place) => {
                current = place;
                left = left - 1;
            },
            None => {
                let key = arena_insert(arena, Tree::new_leaf(code, id, Some(current)));
                let linked = if goes_left {
                    Tree { code: node.code, id: node.id, left: Some(key), right: node.right, parent: node.parent }
                } else {
                    Tree { code: node.code, id: node.id, left: node.left, right: Some(key), parent: node.parent }
                };
                let found = arena_put(arena, current, linked);
                assert(found);
                assert(hanging(nodes, current, id, left as nat) == Some((current, goes_left)));
                assert(!nodes.dom().contains(key as int) && arena_nodes(*arena) == hung(
                    nodes,
                    key,
                    current,
                    goes_left,
                    code,
                    id,
                ));
                return Some(key);
            },
        }
    }
}

/// Whether `stages` are the trees that come of inserting the given names
/// and numbers one after the other, the first as the root: one tree after
/// each insertion.
pub open spec fn growth(stages: Seq<Map<int, Tree>>, root: usize, items: Seq<(&'static str, u32)>) -> bool {
    &&& items.len() > 0
    &&& stages.len() == items.len()
    &&& stages[0] == Map::<int, Tree>::empty().insert(
        root as int,
        Tree { code: items[0].0, id: items[0].1, left: None, right: None, parent: None },
    )
    &&& forall|i: int|
        1 <= i < stages.len() ==> inserted(stages[i - 1], #[trigger] stages[i], root, items[i].0, items[i].1)
}

/// Whether `nodes` is what comes of inserting the given names and numbers,
/// one after the other, the first as the root.
pub open spec fn built(nodes: Map<int, Tree>, root: usize, items: Seq<(&'static str, u32)>) -> bool {
    exists|stages: Seq<Map<int, Tree>>| #[trigger] growth(stages, root, items) && stages.last() == nodes
}

/// The search tree of the given names and numbers, inserted one after the
/// other, and the place of its root. `None` where there is nothing to
/// insert.
pub fn build(items: &[(&'static str, u32)]) -> (r: Option<(Arena, usize)>)
    ensures
        match r {
            Some((arena, root)) => built(arena_nodes(arena), root, items@),
            None => items.len() == 0,
        },
{
    if items.len() == 0 {
        return None;
    }
    let mut arena = arena_new();
    assert(arena_nodes(arena) =~= Map::<int, Tree>::empty());
    let root = arena_insert(&mut arena, Tree::new_leaf(items[0].0, items[0].1, None));
    let ghost mut stages: Seq<Map<int, Tree>> = seq![arena_nodes(arena)];
    let mut i: usize = 1;
    while i < items.len()
        invariant
            1 <= i <= items.len(),
            growth(stages, root, items@.take(i as int)),
            stages.last() == arena_nodes(arena),
        decreases items.len() - i,
    {
        let ghost before = arena_nodes(arena);
        proof {
            lemma_growth_ranked(stages, root, items@.take(i as int), i - 1);
            let depth = choose|depth: Map<int, nat>| #[trigger]
                ranked(before, root, depth) && depth[root as int] == 0;
            lemma_ranked_hangs(before, root, depth, root, items[i as int].1, depth_limit(before));
        }
        let placed = insert(&mut arena, root, items[i].0, items[i].1);
        proof {
            let longer = stages.push(arena_nodes(arena));
            assert forall|k: int| 1 <= k < longer.len() implies inserted(
                longer[k - 1],
                #[trigger] longer[k],
                root,
                items@.take(i + 1)[k].0,
                items@.take(i + 1)[k].1,
            ) by {
                if k < stages.len() {
                    assert(inserted(stages[k - 1], stages[k], root, items@.take(i as int)[k].0, items@.take(i as int)[k].1));
                }
            }
            stages = longer;
        }
        i += 1;
    }
    assert(items@.take(items.len() as int) =~= items@);
    Some((arena, root))
}

/// Whether `depth` gives every node of a finite arena its depth below the
/// root: the root has none, every child lies one deeper than its parent,
/// and no node lies deeper than there are nodes.
pub open spec fn ranked(nodes: Map<int, Tree>, root: usize, depth: Map<int, nat>) -> bool {
    &&& nodes.dom().finite()
    &&& nodes.dom().len() < usize::MAX
    &&& nodes.dom().contains(root as int)
    &&& depth.dom() == nodes.dom()
    &&& forall|k: int| #[trigger] nodes.dom().contains(k) ==> depth[k] < nodes.dom().len()
    &&& forall|k: int|
        #[trigger] nodes.dom().contains(k) ==> match nodes[k].left {
            Some(c) => nodes.dom().contains(c as int) && depth[c as int] == depth[k] + 1,
            None => true,
        }
    &&& forall|k: int|
        #[trigger] nodes.dom().contains(k) ==> match nodes[k].right {
            Some(c) => nodes.dom().contains(c as int) && depth[c as int] == depth[k] + 1,
            None => true,
        }
}

/// In a ranked tree the way down from a node finds a place to hang a new
/// node before the fuel runs out.
proof fn lemma_ranked_hangs(nodes: Map<int, Tree>, root: usize, depth: Map<int, nat>, at: usize, id: u32, fuel: nat)
    requires
        ranked(nodes, root, depth),
        nodes.dom().contains(at as int),
        fuel + depth[at as int] >= nodes.dom().len(),
    ensures
        hanging(nodes, at, id, fuel) is Some,
        nodes.dom().contains(hanging(nodes, at, id, fuel)->Some_0.0 as int),
        depth[hanging(nodes, at, id, fuel)->Some_0.0 as int] + 1 <= nodes.dom().len(),
        hanging(nodes, at, id, fuel)->Some_0.1 ==> nodes[hanging(nodes, at, id, fuel)->Some_0.0 as int].left is None,
        !hanging(nodes, at, id, fuel)->Some_0.1 ==> nodes[hanging(nodes, at, id, fuel)->Some_0.0 as int].right
            is None,
    decreases fuel,
{
    let node = nodes[at as int];
    let next = if id < node.id {
        node.left
    } else {
        node.right
    };
    match next {
        Some(place) => {
            lemma_ranked_hangs(nodes, root, depth, place, id, (fuel - 1) as nat);
        },
        None => {},
    }
}

/// Every stage of a growth is a ranked tree, of as many nodes as were
/// inserted.
proof fn lemma_growth_ranked(stages: Seq<Map<int, Tree>>, root: usize, items: Seq<(&'static str, u32)>, k: int)
    requires
        growth(stages, root, items),
        items.len() < usize::MAX,
        0 <= k < stages.len(),
    ensures
        stages[k].dom().finite(),
        stages[k].dom().len() == k + 1,
        exists|depth: Map<int, nat>| #[trigger] ranked(stages[k], root, depth) && depth[root as int] == 0,
    decreases k,
{
    let nodes = stages[k];
    if k == 0 {
        let depth = Map::<int, nat>::empty().insert(root as int, 0nat);
        assert(nodes.dom() =~= Set::<int>::empty().insert(root as int));
        assert(depth.dom() =~= nodes.dom());
        assert(ranked(nodes, root, depth));
    } else {
        let before = stages[k - 1];
        lemma_growth_ranked(stages, root, items, k - 1);
        assert(inserted(before, stages[k], root, items[k].0, items[k].1));
        let d0 = choose|depth: Map<int, nat>| #[trigger] ranked(before, root, depth) && depth[root as int] == 0;
        let id = items[k].1;
        let code = items[k].0;
        lemma_ranked_hangs(before, root, d0, root, id, depth_limit(before));
        let (parent, left) = hanging(before, root, id, depth_limit(before))->Some_0;
        let key = choose|key: usize|
            !before.dom().contains(key as int) && nodes == #[trigger] hung(before, key, parent, left, code, id);
        let depth = d0.insert(key as int, d0[parent as int] + 1);
        assert(before.dom().contains(parent as int));
        assert(nodes.dom() =~= before.dom().insert(key as int));
        assert(depth.dom() =~= nodes.dom());
        assert forall|j: int| #[trigger] nodes.dom().contains(j) implies depth[j] < nodes.dom().len() by {
            if j != key {
                assert(before.dom().contains(j));
            }
        }
        assert forall|j: int| #[trigger] nodes.dom().contains(j) implies match nodes[j].left {
            Some(c) => nodes.dom().contains(c as int) && depth[c as int] == depth[j] + 1,
            None => true,
        } by {
            if j != key {
                assert(before.dom().contains(j));
            }
        }
        assert forall|j: int| #[trigger] nodes.dom().contains(j) implies match nodes[j].right {
            Some(c) => nodes.dom().contains(c as int) && depth[c as int] == depth[j] + 1,
            None => true,
        } by {
            if j != key {
                assert(before.dom().contains(j));
            }
        }
        assert(ranked(nodes, root, depth));
    }
}

/// The places on the way down from a place towards the given number: at
/// each node it goes left for a lesser number and right for any other, as
/// far as there are children, and `fuel` links at most.
pub open spec fn way_down(nodes: Map<int, Tree>, from: Option<usize>, id: u32, fuel: nat) -> Seq<usize>
    decreases fuel,
{
    if fuel == 0 {
        Seq::empty()
    } else {
        match from {
            Some(i) => if nodes.dom().contains(i as int) {
                let next = if id < nodes[i as int].id {
                    nodes[i as int].left
                } else {
                    nodes[i as int].right
                };
                seq![i] + way_down(nodes, next, id, (fuel - 1) as nat)
            } else {
                Seq::empty()
            },
            None => Seq::empty(),
        }
    }
}

/// The names of the nodes on the way down from the root towards the given
/// number.
pub fn path_to(arena: &Arena, root: usize, id: u32) -> (r: Vec<&'static str>)
    ensures
        r.len() == way_down(arena_nodes(*arena), Some(root), id, depth_limit(arena_nodes(*arena))).len(),
        forall|k: int|
            0 <= k < r.len() ==> #[trigger] r[k] == arena_nodes(*arena)[way_down(
                arena_nodes(*arena),
                Some(root),
                id,
                depth_limit(arena_nodes(*arena)),
            )[k] as int].code,
{
    let fuel = node_count(arena);
    let ghost nodes = arena_nodes(*arena);
    let ghost whole = way_down(nodes, Some(root), id, fuel as nat);
    let ghost mut seen: Seq<usize> = Seq::empty();
    let mut current: Option<usize> = Some(root);
    let mut left: usize = fuel;
    let mut out: Vec<&'static str> = Vec::new();
    loop
        invariant
            nodes == arena_nodes(*arena),
            left <= fuel,
            whole == seen + way_down(nodes, current, id, left as nat),
            out.len() == seen.len(),
            forall|k: int| 0 <= k < out.len() ==> #[trigger] out[k] == nodes[seen[k] as int].code,
        ensures
            whole == seen,
            out.len() == seen.len(),
            forall|k: int| 0 <= k < out.len() ==> #[trigger] out[k] == nodes[seen[k] as int].code,
        decreases left,
    {
        if left == 0 {
            assert(seen + Seq::<usize>::empty() =~= seen);
            break ;
        }
        let node = match current {
            Some(i) => match arena_get(arena, i) {
                Some(node) => node,
                None => {
                    assert(seen + Seq::<usize>::empty() =~= seen);
                    break ;
                },
            },
            None => {
                assert(seen + Seq::<usize>::empty() =~= seen);
                break ;
            },
        };
        let next = if id < node.id {
            node.left
        } else {
            node.right
        };
        out.push(node.code);
        proof {
            let i = current->Some_0;
            assert(seen + (seq![i] + way_down(nodes, next, id, (left - 1) as nat)) =~= seen.push(i) + way_down(
                nodes,
                next,
                id,
                (left - 1) as nat,
            ));
            seen = seen.push(i);
        }
        current = next;
        left = left - 1;
    }
    out
}

/// Names in a row, with a hyphen between each two.
pub open spec fn joined(codes: Seq<&'static str>) -> Seq<char>
    decreases codes.len(),
{
    if codes.len() == 0 {
        Seq::empty()
    } else if codes.len() == 1 {
        codes[0]@
    } else {
        joined(codes.drop_last()) + seq!['-'] + codes.last()@
    }
}

/// Names in a row, with a hyphen between each two.
pub fn join_codes(codes: &Vec<&'static str>) -> (r: String)
    ensures
        r@ == joined(codes@),
{
    let mut out = String::new();
    let mut i: usize = 0;
    while i < codes.len()
        invariant
            i <= codes.len(),
            out@ == joined(codes@.take(i as int)),
        decreases codes.len() - i,
    {
        proof {
            assert(codes@.take(i + 1).drop_last() =~= codes@.take(i as int));
            assert(codes@.take(i + 1).last() == codes[i as int]);
        }
        if i > 0 {
            out.push('-');
        } else {
            assert(out@ + codes[0]@ =~= codes[0]@);
        }
        out.append(codes[i]);
        i += 1;
    }
    assert(codes@.take(codes.len() as int) =~= codes@);
    out
}

/// The first of the places in `a`, at or after `from`, that is also in `b`.
pub open spec fn first_common_from(a: Seq<usize>, b: Seq<usize>, from: int) -> Option<usize>
    decreases a.len() - from,
{
    if from < 0 || from >= a.len() {
        None
    } else if b.contains(a[from]) {
        Some(a[from])
    } else {
        first_common_from(a, b, from + 1)
    }
}

/// The first of the places in `a` that is also in `b`.
pub fn first_common(a: &[usize], b: &[usize]) -> (r: Option<usize>)
    ensures
        r == first_common_from(a@, b@, 0),
{
    let mut i: usize = 0;
    while i < a.len()
        invariant
            i <= a.len(),
            first_common_from(a@, b@, 0) == first_common_from(a@, b@, i as int),
        decreases a.len() - i,
    {
        let mut k: usize = 0;
        while k < b.len()
            invariant
                i < a.len(),
                k <= b.len(),
                first_common_from(a@, b@, 0) == first_common_from(a@, b@, i as int),
                forall|m: int| 0 <= m < k ==> b[m] != a[i as int],
            decreases b.len() - k,
        {
            if b[k] == a[i] {
                assert(b@.contains(a[i as int]));
                return Some(a[i]);
            }
            k += 1;
        }
        i += 1;
    }
    None
}

/// The greatest of the sums, or zero where there are none.
pub open spec fn greatest(sums: Seq<u32>) -> u32
    decreases sums.len(),
{
    if sums.len() == 0 {
        0
    } else if sums.last() > greatest(sums.drop_last()) {
        sums.last()
    } else {
        greatest(sums.drop_last())
    }
}

/// The greatest sum of the numbers of one layer of the tree below the root,
/// times the height of the tree, if the tree has a root and all this fits
/// 32 bits.
pub open spec fn widest_spec(nodes: Map<int, Tree>, root: usize) -> Option<u32> {
    match linked(nodes, Some(root)) {
        Some(top) => {
            let h = height_within(nodes, top, depth_limit(nodes));
            match sums_within(nodes, top, 0, Seq::new(h, |i: int| 0u32), depth_limit(nodes)) {
                Some(sums) => if h <= u32::MAX && greatest(sums) * h <= u32::MAX {
                    Some((greatest(sums) * h) as u32)
                } else {
                    None
                },
                None => None,
            }
        },
        None => None,
    }
}

/// The greatest sum of the numbers of one layer of the tree, times the
/// height of the tree.
pub fn widest_layer(arena: &Arena, root: usize) -> (r: Option<u32>)
    ensures
        r == widest_spec(arena_nodes(*arena), root),
{
    let top = match arena_get(arena, root) {
        Some(node) => node,
        None => { return None; },
    };
    let h = top.height(arena);
    let mut sums: Vec<u32> = Vec::new();
    let mut i: usize = 0;
    while i < h
        invariant
            i <= h,
            sums@ == Seq::new(i as nat, |k: int| 0u32),
        decreases h - i,
    {
        sums.push(0);
        assert(sums@ =~= Seq::new((i + 1) as nat, |k: int| 0u32));
        i += 1;
    }
    if !top.layer_sums(arena, 0, &mut sums) {
        return None;
    }
    let mut most: u32 = 0;
    let mut k: usize = 0;
    while k < sums.len()
        invariant
            k <= sums.len(),
            most == greatest(sums@.take(k as int)),
        decreases sums.len() - k,
    {
        proof {
            assert(sums@.take(k + 1).drop_last() =~= sums@.take(k as int));
            assert(sums@.take(k + 1).last() == sums[k as int]);
        }
        if sums[k] > most {
            most = sums[k];
        }
        k += 1;
    }
    assert(sums@.take(sums.len() as int) =~= sums@);
    if h > u32::MAX as usize {
        return None;
    }
    most.checked_mul(h as u32)
}

/// What an input writes: the nodes of a tree, one to a line up to the first
/// empty line, and after it two lines that each name a node.
pub struct Forest {
    pub items: Vec<(&'static str, u32)>,
    pub first: &'static str,
    pub second: &'static str,
}

/// Reads an input: the nodes of a tree and the names of two of them. `None`
/// where a line before the first empty one writes no node, and where the
/// two lines after it do not each write one.
pub fn parse_input(input: &'static str) -> (r: Option<Forest>)
    ensures
        match r {
            Some(forest) => {
                let rows = lines_spec(input.spec_bytes());
                let n = filled(rows, 0);
                &&& forest.items.len() == n
                &&& n + 2 < rows.len()
                &&& forall|i: int|
                    0 <= i < n ==> parse_node_spec(rows[i]) == Some(
                        ((#[trigger] forest.items[i]).0.spec_bytes(), forest.items[i].1),
                    )
                &&& parse_node_spec(rows[n + 1]) is Some
                &&& parse_node_spec(rows[n + 1])->Some_0.0 == forest.first.spec_bytes()
                &&& parse_node_spec(rows[n + 2]) is Some
                &&& parse_node_spec(rows[n + 2])->Some_0.0 == forest.second.spec_bytes()
            },
            None => {
                let rows = lines_spec(input.spec_bytes());
                let n = filled(rows, 0);
                ||| exists|i: int| 0 <= i < n && parse_node_spec(#[trigger] rows[i]) is None
                ||| n + 2 >= rows.len()
                ||| parse_node_spec(rows[n + 1]) is None
                ||| parse_node_spec(rows[n + 2]) is None
            },
        },
{
    let rows = lines(input.as_bytes());
    let ghost spec_rows = lines_spec(input.spec_bytes());
    let mut items: Vec<(&'static str, u32)> = Vec::new();
    let mut i: usize = 0;
    while i < rows.len() && rows[i].len() > 0
        invariant
            i <= rows.len(),
            spec_rows == lines_spec(input.spec_bytes()),
            rows.len() == spec_rows.len(),
            forall|k: int| 0 <= k < rows.len() ==> (#[trigger] rows[k])@ == spec_rows[k],
            filled(spec_rows, 0) == filled(spec_rows, i as int),
            items.len() == i,
            forall|k: int|
                0 <= k < i ==> parse_node_spec(spec_rows[k]) == Some(((#[trigger] items[k]).0.spec_bytes(), items[k].1)),
        decreases rows.len() - i,
    {
        match node_of(rows[i]) {
            Some(item) => {
                items.push(item);
            },
            None => {
                proof {
                    lemma_filled(spec_rows, i + 1);
                    assert(parse_node_spec(spec_rows[i as int]) is None);
                }
                return None;
            },
        }
        i += 1;
    }
    proof {
        lemma_filled(spec_rows, i as int);
    }
    if i >= rows.len() || rows.len() - i < 3 {
        return None;
    }
    let first = match node_of(rows[i + 1]) {
        Some((code, id)) => code,
        None => { return None; },
    };
    let second = match node_of(rows[i + 2]) {
        Some((code, id)) => code,
        None => { return None; },
    };
    Some(Forest { items, first, second })
}

} // verus!
