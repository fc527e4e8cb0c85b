//! Wares of a quality, a cost and a number of unique materials, and the best
//! choice among them that a sum of money buys.

use vstd::prelude::*;
use vstd::string::StringSliceAdditionalSpecFns;
use crate::text::{lines, lines_spec, parse_unsigned, parse_unsigned_spec, split, split_once, split_once_spec, split_spec};

verus! {

/// A ware.
#[derive(Clone, Copy, Debug, PartialEq, Eq, Hash)]
pub struct Item {
    pub quality: usize,
    pub cost: usize,
    pub unique_materials: usize,
}

/// The better of two choices, each a total quality and a total of unique
/// materials: the one of higher quality, and of two of the same quality the
/// one with fewer materials.
pub open spec fn better(a: (nat, nat), b: (nat, nat)) -> (nat, nat) {
    if b.0 > a.0 || (b.0 == a.0 && b.1 <= a.1) {
        b
    } else {
        a
    }
}

/// The best choice among the given wares, each taken once at most, that
/// `money` buys. No money buys nothing.
pub open spec fn best(items: Seq<Item>, money: nat) -> (nat, nat)
    decreases items.len(),
{
    if items.len() == 0 || money == 0 {
        (0, 0)
    } else {
        let item = items.last();
        let without = best(items.drop_last(), money);
        if item.cost > money {
            without
        } else {
            let rest = best(items.drop_last(), (money - item.cost) as nat);
            better(without, (rest.0 + item.quality as nat, rest.1 + item.unique_materials as nat))
        }
    }
}

/// The qualities of all wares together.
pub open spec fn total_quality(items: Seq<Item>) -> nat
    decreases items.len(),
{
    if items.len() == 0 {
        0
    } else {
        total_quality(items.drop_last()) + items.last().quality as nat
    }
}

/// The unique materials of all wares together.
pub open spec fn total_materials(items: Seq<Item>) -> nat
    decreases items.len(),
{
    if items.len() == 0 {
        0
    } else {
        total_materials(items.drop_last()) + items.last().unique_materials as nat
    }
}

/// No choice holds more than all wares together.
pub proof fn lemma_best_bounded(items: Seq<Item>, money: nat)
    ensures
        best(items, money).0 <= total_quality(items),
        best(items, money).1 <= total_materials(items),
    decreases items.len(),
{
    if items.len() > 0 && money > 0 {
        lemma_best_bounded(items.drop_last(), money);
        if items.last().cost <= money {
            lemma_best_bounded(items.drop_last(), (money - items.last().cost) as nat);
        }
    }
}

/// The first wares hold no more than all of them.
proof fn lemma_totals_grow(items: Seq<Item>, k: int)
    requires
        0 <= k <= items.len(),
    ensures
        total_quality(items.take(k)) <= total_quality(items),
        total_materials(items.take(k)) <= total_materials(items),
    decreases items.len() - k,
{
    if k < items.len() {
        lemma_totals_grow(items, k + 1);
        assert(items.take(k + 1).drop_last() =~= items.take(k));
    } else {
        assert(items.take(k) =~= items);
    }
}

/// The best choice among the wares that `money` buys: its quality and the
/// number of its unique materials.
pub fn best_choice(items: &[Item], money: usize) -> (r: (usize, usize))
    requires
        money < usize::MAX,
        total_quality(items@) <= usize::MAX,
        total_materials(items@) <= usize::MAX,
    ensures
        r.0 == best(items@, money as nat).0,
        r.1 == best(items@, money as nat).1,
{
    let mut prev: Vec<(usize, usize)> = Vec::new();
    let mut next: Vec<(usize, usize)> = Vec::new();
    let mut j: usize = 0;
    while j <= money
        invariant
            money < usize::MAX,
            j <= money + 1,
            prev.len() == j,
            next.len() == j,
            forall|i: int| 0 <= i < j ==> prev[i] == (0usize, 0usize) && next[i] == (0usize, 0usize),
        decreases money + 1 - j,
    {
        prev.push((0, 0));
        next.push((0, 0));
        j += 1;
    }
    assert(items@.take(0) =~= Seq::<Item>::empty());
    let mut k: usize = 0;
    while k < items.len()
        invariant
            money < usize::MAX,
            total_quality(items@) <= usize::MAX,
            total_materials(items@) <= usize::MAX,
            k <= items.len(),
            prev.len() == money + 1,
            next.len() == money + 1,
            next[0] == (0usize, 0usize),
            forall|i: int|
                0 <= i <= money ==> (#[trigger] prev[i]).0 == best(items@.take(k as int), i as nat).0 && prev[i].1
                    == best(items@.take(k as int), i as nat).1,
        decreases items.len() - k,
    {
        let item = items[k];
        let ghost seen = items@.take(k as int);
        let ghost grown = items@.take(k + 1);
        proof {
            assert(grown.drop_last() =~= seen);
            assert(grown.last() == item);
            lemma_totals_grow(items@, k + 1);
        }
        let mut j: usize = 1;
        while j <= money
            invariant
                money < usize::MAX,
                1 <= j <= money + 1,
                prev.len() == money + 1,
                next.len() == money + 1,
                next[0] == (0usize, 0usize),
                grown.len() > 0,
                grown.drop_last() == seen,
                grown.last() == item,
                total_quality(grown) <= usize::MAX,
                total_materials(grown) <= usize::MAX,
                forall|i: int|
                    0 <= i <= money ==> (#[trigger] prev[i]).0 == best(seen, i as nat).0 && prev[i].1 == best(
                        seen,
                        i as nat,
                    ).1,
                forall|i: int|
                    1 <= i < j ==> (#[trigger] next[i]).0 == best(grown, i as nat).0 && next[i].1 == best(
                        grown,
                        i as nat,
                    ).1,
            decreases money + 1 - j,
        {
            if item.cost > j {
                let same = prev[j];
                next.set(j, same);
            } else {
                let without = prev[j];
                let rest = prev[j - item.cost];
                proof {
                    lemma_best_bounded(seen, (j - item.cost) as nat);
                    assert(total_quality(grown) == total_quality(seen) + item.quality);
                    assert(total_materials(grown) == total_materials(seen) + item.unique_materials);
                }
                let with = (rest.0 + item.quality, rest.1 + item.unique_materials);
                let pick = if with.0 > without.0 || (with.0 == without.0 && with.1 <= without.1) {
                    with
                } else {
                    without
                };
                next.set(j, pick);
            }
            j += 1;
        }
        std::mem::swap(&mut prev, &mut next);
        k += 1;
    }
    assert(items@.take(items.len() as int) =~= items@);
    prev[money]
}

/// The quality of the best choice that `money` buys, times the number of its
/// unique materials.
pub fn knapsack(items: &[Item], money: usize) -> (r: usize)
    requires
        money < usize::MAX,
        total_quality(items@) <= usize::MAX,
        total_materials(items@) <= usize::MAX,
        best(items@, money as nat).0 * best(items@, money as nat).1 <= usize::MAX,
    ensures
        r == best(items@, money as nat).0 * best(items@, money as nat).1,
{
    let sol = best_choice(items, money);
    sol.0 * sol.1
}

/// Whether the outcome of `knapsack` can be worked out: the money is less
/// than the greatest number there is, and the qualities of all wares, their
/// unique materials, and the outcome fit.
pub open spec fn knapsack_fits(items: Seq<Item>, money: usize) -> bool {
    &&& money < usize::MAX
    &&& total_quality(items) <= usize::MAX
    &&& total_materials(items) <= usize::MAX
    &&& best(items, money as nat).0 * best(items, money as nat).1 <= usize::MAX
}

/// The outcome of `knapsack`, or `None` where it cannot be worked out.
pub fn checked_knapsack(items: &[Item], money: usize) -> (r: Option<usize>)
    ensures
        r == if knapsack_fits(items@, money) {
            Some((best(items@, money as nat).0 * best(items@, money as nat).1) as usize)
        } else {
            None
        },
{
    if money == usize::MAX {
        return None;
    }
    let mut quality: usize = 0;
    let mut materials: usize = 0;
    let mut i: usize = 0;
    while i < items.len()
        invariant
            i <= items.len(),
            quality == total_quality(items@.take(i as int)),
            materials == total_materials(items@.take(i as int)),
        decreases items.len() - i,
    {
        proof {
            assert(items@.take(i + 1).drop_last() =~= items@.take(i as int));
            assert(items@.take(i + 1).last() == items[i as int]);
            lemma_totals_grow(items@, i + 1);
        }
        let sums = match quality.checked_add(items[i].quality) {
            Some(q) => match materials.checked_add(items[i].unique_materials) {
                Some(m) => Some((q, m)),
                None => None,
            },
            None => None,
        };
        match sums {
            Some((q, m)) => {
                quality = q;
                materials = m;
            },
            None => {
                return None;
            },
        }
        i += 1;
    }
    assert(items@.take(items.len() as int) =~= items@);
    let sol = best_choice(items, money);
    sol.0.checked_mul(sol.1)
}

/// The number that the part of a line after its name writes: what follows
/// the first colon and blank.
pub open spec fn field_spec(part: Seq<u8>) -> Option<usize> {
    match split_once_spec(part, seq![0x3au8, 0x20u8]) {
        Some((name, number)) => match parse_unsigned_spec(number, usize::MAX as nat) {
            Some(n) => Some(n as usize),
            None => None,
        },
        None => None,
    }
}

/// The ware that a line writes: after the first bar, three parts or more,
/// parted by a comma and a blank, of which the first three give the quality,
/// the cost and the number of unique materials.
pub open spec fn item_spec(line: Seq<u8>) -> Option<Item> {
    match split_once_spec(line, seq![0x20u8, 0x7cu8, 0x20u8]) {
        Some((name, list)) => {
            let parts = split_spec(list, seq![0x2cu8, 0x20u8]);
            if parts.len() < 3 {
                None
            } else {
                match (field_spec(parts[0]), field_spec(parts[1]), field_spec(parts[2])) {
                    (Some(quality), Some(cost), Some(unique_materials)) => Some(
                        Item { quality, cost, unique_materials },
                    ),
                    _ => None,
                }
            }
        },
        None => None,
    }
}

/// Reads one number of a ware.
fn field(part: &[u8]) -> (r: Option<usize>)
    ensures
        r == field_spec(part@),
{
    let colon: [u8; 2] = [0x3a, 0x20];
    assert(colon@ =~= seq![0x3au8, 0x20u8]);
    match split_once(part, colon.as_slice()) {
        Some((name, number)) => match parse_unsigned(number, usize::MAX as u64) {
            Some(n) => Some(n as usize),
            None => None,
        },
        None => None,
    }
}

/// Reads a ware.
pub fn parse_item(line: &[u8]) -> (r: Option<Item>)
    ensures
        r == item_spec(line@),
{
    let bar: [u8; 3] = [0x20, 0x7c, 0x20];
    assert(bar@ =~= seq![0x20u8, 0x7cu8, 0x20u8]);
    let comma: [u8; 2] = [0x2c, 0x20];
    assert(comma@ =~= seq![0x2cu8, 0x20u8]);
    let list = match split_once(line, bar.as_slice()) {
        Some((name, list)) => list,
        None => { return None; },
    };
    let parts = split(list, comma.as_slice());
    if parts.len() < 3 {
        return None;
    }
    match (field(parts[0]), field(parts[1]), field(parts[2])) {
        (Some(quality), Some(cost), Some(unique_materials)) => Some(Item { quality, cost, unique_materials }),
        _ => None,
    }
}

/// The wares of a text, one to a line; `None` where a line writes no ware.
pub fn parse_items(input: &str) -> (r: Option<Vec<Item>>)
    ensures
        match r {
            Some(items) => items.len() == lines_spec(input.spec_bytes()).len() && forall|i: int|
                0 <= i < items.len() ==> item_spec(lines_spec(input.spec_bytes())[i]) == Some(#[trigger] items[i]),
            None => exists|i: int|
                0 <= i < lines_spec(input.spec_bytes()).len() && item_spec(
                    #[trigger] lines_spec(input.spec_bytes())[i],
                ) is None,
        },
{
    let rows = lines(input.as_bytes());
    let ghost spec_rows = lines_spec(input.spec_bytes());
    let mut items: Vec<Item> = Vec::new();
    let mut i: usize = 0;
    while i < rows.len()
        invariant
            i <= rows.len(),
            spec_rows == lines_spec(input.spec_bytes()),
            rows.len() == spec_rows.len(),
            forall|k: int| 0 <= k < rows.len() ==> (#[trigger] rows[k])@ == spec_rows[k],
            items.len() == i,
            forall|k: int| 0 <= k < i ==> item_spec(spec_rows[k]) == Some(#[trigger] items[k]),
        decreases rows.len() - i,
    {
        match parse_item(rows[i]) {
            Some(item) => {
                items.push(item);
            },
            None => {
                assert(item_spec(spec_rows[i as int]) is None);
                return None;
            },
        }
        i += 1;
    }
    Some(items)
}

/// Whether the ware at place `j` ranks above the one at place `i`: by
/// quality, then by cost, and of two wares alike in both the later one.
pub open spec fn outranks(items: Seq<Item>, j: int, i: int) -> bool {
    items[j].quality > items[i].quality || (items[j].quality == items[i].quality && (items[j].cost > items[i].cost
        || (items[j].cost == items[i].cost && j > i)))
}

/// The number of wares among the first `n` that rank above the one at place
/// `i`.
pub open spec fn rank(items: Seq<Item>, i: int, n: int) -> nat
    decreases n,
{
    if n <= 0 {
        0
    } else {
        rank(items, i, n - 1) + if outranks(items, n - 1, i) {
            1nat
        } else {
            0nat
        }
    }
}

/// The unique materials of those among the first `n` wares that fewer than
/// five wares rank above, together.
pub open spec fn top_five(items: Seq<Item>, n: int) -> nat
    decreases n,
{
    if n <= 0 {
        0
    } else {
        top_five(items, n - 1) + if rank(items, n - 1, items.len() as int) < 5 {
            items[n - 1].unique_materials as nat
        } else {
            0nat
        }
    }
}

/// More wares hold no fewer materials.
proof fn lemma_top_five_grows(items: Seq<Item>, k: int, n: int)
    requires
        0 <= k <= n,
    ensures
        top_five(items, k) <= top_five(items, n),
    decreases n - k,
{
    if k < n {
        lemma_top_five_grows(items, k, n - 1);
    }
}

/// The unique materials of the five wares of the highest rank, together;
/// `None` where they do not fit.
pub fn top_five_materials(items: &[Item]) -> (r: Option<usize>)
    ensures
        r == if top_five(items@, items.len() as int) <= usize::MAX {
            Some(top_five(items@, items.len() as int) as usize)
        } else {
            None
        },
{
    let mut sum: usize = 0;
    let mut i: usize = 0;
    while i < items.len()
        invariant
            i <= items.len(),
            sum == top_five(items@, i as int),
        decreases items.len() - i,
    {
        let mut above: usize = 0;
        let mut j: usize = 0;
        while j < items.len()
            invariant
                i < items.len(),
                j <= items.len(),
                above <= j,
                above == rank(items@, i as int, j as int),
            decreases items.len() - j,
        {
            let a = items[j];
            let b = items[i];
            if a.quality > b.quality || (a.quality == b.quality && (a.cost > b.cost || (a.cost == b.cost && j > i))) {
                above += 1;
            }
            j += 1;
        }
        if above < 5 {
            sum = match sum.checked_add(items[i].unique_materials) {
                Some(v) => v,
                None => {
                    proof {
                        lemma_top_five_grows(items@, i + 1, items.len() as int);
                    }
                    return None;
                },
            };
        }
        i += 1;
    }
    Some(sum)
}

} // verus!
