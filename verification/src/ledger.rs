//! A ledger of 26 accounts, named by capital letters, and transfers between
//! them.

use vstd::prelude::*;
use vstd::string::StringSliceAdditionalSpecFns;
use crate::text::{
    lines, lines_spec, parse_signed, parse_signed_spec, split_once, split_once_spec, tokens, tokens_spec,
};

verus! {

/// The number of accounts.
pub const NUM_NAMES: usize = 26;

/// The place of the account with the given name: that of the name's first
/// byte in the alphabet, counted from `A`.
pub open spec fn idx_spec(name: Seq<u8>) -> int {
    name[0] - 0x41
}

/// The place of the account with the given name, which begins with a byte
/// at or after `A`.
pub fn idx(name: &str) -> (r: usize)
    requires
        name.spec_bytes().len() > 0,
        name.spec_bytes()[0] >= 0x41,
    ensures
        r == idx_spec(name.spec_bytes()),
{
    (name.as_bytes()[0] - 0x41) as usize
}

/// The place of the account whose name the bytes write, if they write one.
pub open spec fn account_spec(name: Seq<u8>) -> Option<int> {
    if name.len() > 0 && name[0] >= 0x41 {
        Some(idx_spec(name))
    } else {
        None
    }
}

/// The place of the account whose name the bytes write.
fn account(name: &[u8]) -> (r: Option<usize>)
    ensures
        match r {
            Some(i) => account_spec(name@) == Some(i as int),
            None => account_spec(name@) is None,
        },
{
    if name.len() > 0 && name[0] >= 0x41 {
        Some((name[0] - 0x41) as usize)
    } else {
        None
    }
}

/// What a line of the form `name HAS balance` writes: the account's place
/// and its balance.
pub open spec fn parse_balance_line_spec(line: Seq<u8>) -> Option<(int, int)> {
    match split_once_spec(line, seq![0x20u8, 0x48u8, 0x41u8, 0x53u8, 0x20u8]) {
        Some((name, balance)) => match (
            parse_signed_spec(balance, i16::MIN as int, i16::MAX as int),
            account_spec(name),
        ) {
            (Some(b), Some(i)) => Some((i, b)),
            _ => None,
        },
        None => None,
    }
}

/// Reads a line of the form `name HAS balance`.
pub fn parse_balance_line(line: &str) -> (r: Option<(usize, i16)>)
    ensures
        match r {
            Some(p) => parse_balance_line_spec(line.spec_bytes()) == Some((p.0 as int, p.1 as int)),
            None => parse_balance_line_spec(line.spec_bytes()) is None,
        },
{
    balance_of(line.as_bytes())
}

/// Reads the bytes of a line of the form `name HAS balance`.
pub fn balance_of(line: &[u8]) -> (r: Option<(usize, i16)>)
    ensures
        match r {
            Some(p) => parse_balance_line_spec(line@) == Some((p.0 as int, p.1 as int)),
            None => parse_balance_line_spec(line@) is None,
        },
{
    let has: [u8; 5] = [0x20, 0x48, 0x41, 0x53, 0x20];
    assert(has@ =~= seq![0x20u8, 0x48u8, 0x41u8, 0x53u8, 0x20u8]);
    match split_once(line, has.as_slice()) {
        Some((name, balance)) => match parse_signed(balance, i16::MIN as i64, i16::MAX as i64) {
            Some(b) => match account(name) {
                Some(i) => Some((i, b as i16)),
                None => None,
            },
            None => None,
        },
        None => None,
    }
}

/// What a line of the form `FROM name TO name AMT amount` writes: the second,
/// fourth and sixth of its words, as two accounts and an amount.
pub open spec fn parse_txn_line_spec(line: Seq<u8>) -> Option<(int, int, int)> {
    let words = tokens_spec(line);
    if words.len() < 6 {
        None
    } else {
        match (
            account_spec(words[1]),
            account_spec(words[3]),
            parse_signed_spec(words[5], i16::MIN as int, i16::MAX as int),
        ) {
            (Some(from), Some(to), Some(amount)) => Some((from, to, amount)),
            _ => None,
        }
    }
}

/// Reads a line of the form `FROM name TO name AMT amount`.
pub fn parse_txn_line(line: &str) -> (r: Option<(usize, usize, i16)>)
    ensures
        match r {
            Some(p) => parse_txn_line_spec(line.spec_bytes()) == Some((p.0 as int, p.1 as int, p.2 as int)),
            None => parse_txn_line_spec(line.spec_bytes()) is None,
        },
{
    txn_of(line.as_bytes())
}

/// Reads the bytes of a line of the form `FROM name TO name AMT amount`.
pub fn txn_of(line: &[u8]) -> (r: Option<(usize, usize, i16)>)
    ensures
        match r {
            Some(p) => parse_txn_line_spec(line@) == Some((p.0 as int, p.1 as int, p.2 as int)),
            None => parse_txn_line_spec(line@) is None,
        },
{
    let words = tokens(line);
    if words.len() < 6 {
        return None;
    }
    let from = match account(words[1]) {
        Some(i) => i,
        None => { return None; },
    };
    let to = match account(words[3]) {
        Some(i) => i,
        None => { return None; },
    };
    match parse_signed(words[5], i16::MIN as i64, i16::MAX as i64) {
        Some(amount) => Some((from, to, amount as i16)),
        None => None,
    }
}

/// The three greatest balances, greatest first. Fewer than three balances
/// are filled up with the least 16-bit number.
pub open spec fn top_three(balances: Seq<i16>) -> (int, int, int)
    decreases balances.len(),
{
    if balances.len() == 0 {
        (i16::MIN as int, i16::MIN as int, i16::MIN as int)
    } else {
        let (a, b, c) = top_three(balances.drop_last());
        let v = balances.last() as int;
        if v > a {
            (v, a, b)
        } else if v > b {
            (a, v, b)
        } else if v > c {
            (a, b, v)
        } else {
            (a, b, c)
        }
    }
}

/// Whether `v` is the balance at place `p`, or, where there are no more
/// than `rank` balances, the least 16-bit number.
pub open spec fn ranked(balances: Seq<i16>, v: int, p: int, rank: int) -> bool {
    if balances.len() > rank {
        0 <= p < balances.len() && balances[p] == v
    } else {
        v == i16::MIN
    }
}

/// Whether three numbers in falling order are the balances at three
/// different places, and the balance at every other place is no more than
/// the third. Where there are fewer than three balances, the least 16-bit
/// number fills up.
pub open spec fn are_greatest(balances: Seq<i16>, v: (int, int, int), p: (int, int, int)) -> bool {
    &&& v.0 >= v.1 >= v.2
    &&& ranked(balances, v.0, p.0, 0)
    &&& ranked(balances, v.1, p.1, 1)
    &&& ranked(balances, v.2, p.2, 2)
    &&& balances.len() >= 2 ==> p.0 != p.1
    &&& balances.len() >= 3 ==> p.0 != p.2 && p.1 != p.2
    &&& forall|k: int| 0 <= k < balances.len() && k != p.0 && k != p.1 && k != p.2 ==> #[trigger] balances[k] <= v.2
}

/// Three numbers that are the greatest at some places are the same as
/// three that are the greatest at other places: what the three greatest
/// balances are does not depend on where they stand.
pub proof fn lemma_greatest_are_one(
    balances: Seq<i16>,
    v: (int, int, int),
    p: (int, int, int),
    w: (int, int, int),
    q: (int, int, int),
)
    requires
        are_greatest(balances, v, p),
        are_greatest(balances, w, q),
    ensures
        v == w,
{
    if balances.len() >= 3 {
        assert(balances[p.0] == v.0 && balances[p.1] == v.1 && balances[p.2] == v.2);
        assert(balances[q.0] == w.0 && balances[q.1] == w.1 && balances[q.2] == w.2);
    } else if balances.len() == 2 {
        assert(balances[p.0] == v.0 && balances[p.1] == v.1);
        assert(balances[q.0] == w.0 && balances[q.1] == w.1);
    }
}

/// The three greatest balances are the balances at three different places,
/// in falling order, and the balance at every other place is no more than
/// the third. So they are the same in whatever order the balances come.
pub proof fn lemma_top_three_greatest(balances: Seq<i16>) -> (p: (int, int, int))
    ensures
        are_greatest(balances, top_three(balances), p),
    decreases balances.len(),
{
    if balances.len() == 0 {
        (0, 0, 0)
    } else {
        let rest = balances.drop_last();
        let last = balances.len() - 1;
        let q = lemma_top_three_greatest(rest);
        let (a, b, c) = top_three(rest);
        let v = balances.last() as int;
        assert forall|k: int| 0 <= k < rest.len() implies rest[k] == balances[k] by {}
        let p = if v > a {
            (last, q.0, q.1)
        } else if v > b {
            (q.0, last, q.1)
        } else if v > c {
            (q.0, q.1, last)
        } else if rest.len() >= 3 {
            q
        } else if rest.len() == 2 {
            (q.0, q.1, last)
        } else if rest.len() == 1 {
            (q.0, last, q.2)
        } else {
            (last, q.1, q.2)
        };
        let (a2, b2, c2) = top_three(balances);
        assert forall|k: int| 0 <= k < balances.len() && k != p.0 && k != p.1 && k != p.2 implies #[trigger] balances[k]
            <= c2 by {
            if k < last {
                assert(rest[k] == balances[k]);
                if k != q.0 && k != q.1 && k != q.2 {
                    assert(rest[k] <= c);
                }
            }
        }
        p
    }
}

/// Whether `other` holds the balances of `balances` in another order:
/// `to` gives for every place of `other` the place that its balance had, and
/// `back` the way back.
pub open spec fn reordered(balances: Seq<i16>, other: Seq<i16>, to: Seq<int>, back: Seq<int>) -> bool {
    &&& other.len() == balances.len()
    &&& to.len() == balances.len()
    &&& back.len() == balances.len()
    &&& forall|i: int|
        0 <= i < other.len() ==> 0 <= #[trigger] to[i] < balances.len() && back[to[i]] == i && other[i]
            == balances[to[i]]
    &&& forall|j: int| 0 <= j < balances.len() ==> 0 <= #[trigger] back[j] < other.len() && to[back[j]] == j
}

/// The three greatest balances, and so their sum, are the same in whatever
/// order the balances come.
pub proof fn lemma_top_three_any_order(balances: Seq<i16>, other: Seq<i16>, to: Seq<int>, back: Seq<int>)
    requires
        reordered(balances, other, to, back),
    ensures
        top_three(other) == top_three(balances),
        top_three_sum(other) == top_three_sum(balances),
{
    let p = lemma_top_three_greatest(balances);
    let q = lemma_top_three_greatest(other);
    let v = top_three(balances);
    let n = balances.len();
    let moved = (
        if n > 0 {
            back[p.0]
        } else {
            0
        },
        if n > 1 {
            back[p.1]
        } else {
            0
        },
        if n > 2 {
            back[p.2]
        } else {
            -1
        },
    );
    assert forall|k: int| 0 <= k < other.len() && k != moved.0 && k != moved.1 && k != moved.2 implies #[trigger] other[k]
        <= v.2 by {
        let j = to[k];
        if n > 2 {
            assert(j != p.0 && j != p.1 && j != p.2);
            assert(balances[j] <= v.2);
        } else if n == 2 {
            assert(to[0] != to[1]) by {
                assert(back[to[0]] == 0 && back[to[1]] == 1);
            }
        }
    }
    assert(are_greatest(other, v, moved));
    lemma_greatest_are_one(other, v, moved, top_three(other), q);
}

/// The sum of the three greatest balances.
pub open spec fn top_three_sum(balances: Seq<i16>) -> int {
    let (a, b, c) = top_three(balances);
    a + b + c
}

/// The sum of the three greatest balances, where it fits 16 bits.
pub fn sum_top_three(balances: &[i16; NUM_NAMES]) -> (r: i16)
    requires
        i16::MIN <= top_three_sum(balances@) <= i16::MAX,
    ensures
        r == top_three_sum(balances@),
{
    let mut top1: i16 = i16::MIN;
    let mut top2: i16 = i16::MIN;
    let mut top3: i16 = i16::MIN;
    let mut i: usize = 0;
    while i < NUM_NAMES
        invariant
            i <= NUM_NAMES,
            balances@.len() == NUM_NAMES,
            top_three(balances@.take(i as int)) == (top1 as int, top2 as int, top3 as int),
        decreases NUM_NAMES - i,
    {
        let bal = balances[i];
        proof {
            assert(balances@.take(i + 1).drop_last() =~= balances@.take(i as int));
            assert(balances@.take(i + 1).last() == bal);
        }
        if bal > top1 {
            top3 = top2;
            top2 = top1;
            top1 = bal;
        } else if bal > top2 {
            top3 = top2;
            top2 = bal;
        } else if bal > top3 {
            top3 = bal;
        }
        i += 1;
    }
    assert(balances@.take(NUM_NAMES as int) =~= balances@);
    let sum: i32 = top1 as i32 + top2 as i32 + top3 as i32;
    sum as i16
}

/// The sum of the three greatest balances, or `None` where it does not fit
/// 16 bits.
pub fn checked_sum_top_three(balances: &[i16; NUM_NAMES]) -> (r: Option<i16>)
    ensures
        r == top_sum_spec(balances@),
{
    let mut top1: i16 = i16::MIN;
    let mut top2: i16 = i16::MIN;
    let mut top3: i16 = i16::MIN;
    let mut i: usize = 0;
    while i < NUM_NAMES
        invariant
            i <= NUM_NAMES,
            balances@.len() == NUM_NAMES,
            top_three(balances@.take(i as int)) == (top1 as int, top2 as int, top3 as int),
        decreases NUM_NAMES - i,
    {
        let bal = balances[i];
        proof {
            assert(balances@.take(i + 1).drop_last() =~= balances@.take(i as int));
            assert(balances@.take(i + 1).last() == bal);
        }
        if bal > top1 {
            top3 = top2;
            top2 = top1;
            top1 = bal;
        } else if bal > top2 {
            top3 = top2;
            top2 = bal;
        } else if bal > top3 {
            top3 = bal;
        }
        i += 1;
    }
    assert(balances@.take(NUM_NAMES as int) =~= balances@);
    let sum: i32 = top1 as i32 + top2 as i32 + top3 as i32;
    if sum < i16::MIN as i32 || sum > i16::MAX as i32 {
        None
    } else {
        Some(sum as i16)
    }
}

/// The sum of the three greatest balances, if it fits 16 bits.
pub open spec fn top_sum_spec(balances: Seq<i16>) -> Option<i16> {
    if fits(top_three_sum(balances)) {
        Some(top_three_sum(balances) as i16)
    } else {
        None
    }
}

/// Whether a number fits 16 bits.
pub open spec fn fits(v: int) -> bool {
    i16::MIN <= v <= i16::MAX
}

/// The balances after `amount` is added to the account at place `i`, if
/// there is such an account and its new balance fits 16 bits.
pub open spec fn credit(state: Seq<i16>, i: int, amount: int) -> Option<Seq<i16>> {
    if 0 <= i < state.len() && fits(state[i] + amount) {
        Some(state.update(i, (state[i] + amount) as i16))
    } else {
        None
    }
}

/// The balances after `amount` moves from one account to another: first it
/// leaves the one, then it reaches the other.
pub open spec fn transfer(state: Seq<i16>, from: int, to: int, amount: int) -> Option<Seq<i16>> {
    match credit(state, from, -amount) {
        Some(s) => credit(s, to, amount),
        None => None,
    }
}

/// The balances that the first `n` lines of the form `name HAS balance`
/// open the accounts with; an account without a line holds nothing.
pub open spec fn opening(rows: Seq<Seq<u8>>, n: int) -> Option<Seq<i16>>
    decreases n,
{
    if n <= 0 {
        Some(Seq::new(26, |i: int| 0i16))
    } else {
        match (opening(rows, n - 1), parse_balance_line_spec(rows[n - 1])) {
            (Some(s), Some((i, b))) => if i < 26 {
                Some(s.update(i, b as i16))
            } else {
                None
            },
            _ => None,
        }
    }
}

/// How much of a transfer is carried out.
#[derive(Clone, Copy, Debug, PartialEq, Eq, Structural)]
pub enum Policy {
    /// The whole amount, whatever the balance.
    Whole,
    /// No more than the balance of the account it leaves.
    Capped,
}

/// The balances after the transfer that a line writes, if it writes one
/// between two accounts and the new balances fit 16 bits.
pub open spec fn after_line(state: Seq<i16>, line: Seq<u8>, policy: Policy) -> Option<Seq<i16>> {
    match parse_txn_line_spec(line) {
        Some((from, to, amount)) => if from < 26 {
            let moved = if policy == Policy::Capped && state[from] < amount {
                state[from] as int
            } else {
                amount
            };
            transfer(state, from, to, moved)
        } else {
            None
        },
        None => None,
    }
}

/// The balances after the transfers of the first `n` lines.
pub open spec fn after_lines(state: Seq<i16>, rows: Seq<Seq<u8>>, n: int, policy: Policy) -> Option<Seq<i16>>
    decreases n,
{
    if n <= 0 {
        Some(state)
    } else {
        match after_lines(state, rows, n - 1, policy) {
            Some(s) => after_line(s, rows[n - 1], policy),
            None => None,
        }
    }
}

/// The two parts of a ledger: the lines before the first empty line, which
/// open the accounts, and the lines after it, which are transfers.
pub open spec fn parts_spec(input: Seq<u8>) -> Option<(Seq<Seq<u8>>, Seq<Seq<u8>>)> {
    match split_once_spec(input, seq![0x0au8, 0x0au8]) {
        Some((head, tail)) => Some((lines_spec(head), lines_spec(tail))),
        None => None,
    }
}

/// The opening balances of a ledger, if its first part writes them.
pub open spec fn opened(input: Seq<u8>) -> Option<Seq<i16>> {
    match parts_spec(input) {
        Some((head, tail)) => opening(head, head.len() as int),
        None => None,
    }
}

/// The sum of the three greatest balances after the transfers of a ledger.
pub open spec fn solve_spec(input: Seq<u8>, policy: Policy) -> Option<i16> {
    match (parts_spec(input), opened(input)) {
        (Some((head, tail)), Some(state)) => match after_lines(state, tail, tail.len() as int, policy) {
            Some(end) => top_sum_spec(end),
            None => None,
        },
        _ => None,
    }
}

/// Once the balances cannot be opened, they stay so.
proof fn lemma_opening_fails(rows: Seq<Seq<u8>>, k: int, n: int)
    requires
        0 <= k <= n,
        opening(rows, k) is None,
    ensures
        opening(rows, n) is None,
    decreases n - k,
{
    if k < n {
        lemma_opening_fails(rows, k, n - 1);
    }
}

/// Once a transfer cannot be carried out, no balances come of the rest.
proof fn lemma_after_lines_fails(state: Seq<i16>, rows: Seq<Seq<u8>>, k: int, n: int, policy: Policy)
    requires
        0 <= k <= n,
        after_lines(state, rows, k, policy) is None,
    ensures
        after_lines(state, rows, n, policy) is None,
    decreases n - k,
{
    if k < n {
        lemma_after_lines_fails(state, rows, k, n - 1, policy);
    }
}

/// Reads a ledger: its opening balances and the lines of its transfers.
pub fn read_ledger<'a>(input: &'a [u8]) -> (r: Option<([i16; NUM_NAMES], Vec<&'a [u8]>)>)
    ensures
        match r {
            Some((state, rows)) => {
                &&& opened(input@) == Some(state@)
                &&& parts_spec(input@) is Some
                &&& rows.len() == parts_spec(input@)->Some_0.1.len()
                &&& forall|i: int| 0 <= i < rows.len() ==> (#[trigger] rows[i])@ == parts_spec(input@)->Some_0.1[i]
            },
            None => opened(input@) is None,
        },
{
    let gap: [u8; 2] = [0x0a, 0x0a];
    assert(gap@ =~= seq![0x0au8, 0x0au8]);
    let (head, tail) = match split_once(input, gap.as_slice()) {
        Some(parts) => parts,
        None => { return None; },
    };
    let head_rows = lines(head);
    let ghost spec_head = lines_spec(head@);
    let mut state: [i16; NUM_NAMES] = [0; NUM_NAMES];
    assert(state@ =~= Seq::new(26, |i: int| 0i16));
    let mut i: usize = 0;
    while i < head_rows.len()
        invariant
            i <= head_rows.len(),
            spec_head == lines_spec(head@),
            head_rows.len() == spec_head.len(),
            forall|k: int| 0 <= k < head_rows.len() ==> (#[trigger] head_rows[k])@ == spec_head[k],
            opening(spec_head, i as int) == Some(state@),
            parts_spec(input@) == Some((lines_spec(head@), lines_spec(tail@))),
        decreases head_rows.len() - i,
    {
        match balance_of(head_rows[i]) {
            Some((at, balance)) => {
                if at >= NUM_NAMES {
                    proof {
                        lemma_opening_fails(spec_head, i + 1, spec_head.len() as int);
                    }
                    return None;
                }
                state[at] = balance;
            },
            None => {
                proof {
                    lemma_opening_fails(spec_head, i + 1, spec_head.len() as int);
                }
                return None;
            },
        }
        i += 1;
    }
    Some((state, lines(tail)))
}

/// Adds `amount` to the account at place `i`, if its new balance fits 16
/// bits, and says whether it did.
fn add_to(state: &mut [i16; NUM_NAMES], i: usize, amount: i32) -> (r: bool)
    requires
        -0x10000 <= amount <= 0x10000,
    ensures
        match credit(old(state)@, i as int, amount as int) {
            Some(s) => r && final(state)@ == s,
            None => !r && final(state)@ == old(state)@,
        },
{
    if i >= NUM_NAMES {
        return false;
    }
    let sum: i32 = state[i] as i32 + amount;
    if sum < i16::MIN as i32 || sum > i16::MAX as i32 {
        return false;
    }
    state[i] = sum as i16;
    true
}

/// Moves `amount` from one account to another, and says whether it could.
fn move_amount(state: &mut [i16; NUM_NAMES], from: usize, to: usize, amount: i16) -> (r: bool)
    ensures
        match transfer(old(state)@, from as int, to as int, amount as int) {
            Some(s) => r && final(state)@ == s,
            None => !r,
        },
{
    if !add_to(state, from, -(amount as i32)) {
        return false;
    }
    add_to(state, to, amount as i32)
}

/// The sum of the three greatest balances after the transfers of a ledger,
/// under the given policy.
fn solve(input: &[u8], policy: Policy) -> (r: Option<i16>)
    ensures
        r == solve_spec(input@, policy),
{
    let (mut state, rows) = match read_ledger(input) {
        Some(parts) => parts,
        None => { return None; },
    };
    let ghost tail = parts_spec(input@)->Some_0.1;
    let ghost first = state@;
    let mut i: usize = 0;
    while i < rows.len()
        invariant
            i <= rows.len(),
            parts_spec(input@) is Some,
            tail == parts_spec(input@)->Some_0.1,
            opened(input@) == Some(first),
            rows.len() == tail.len(),
            forall|k: int| 0 <= k < rows.len() ==> (#[trigger] rows[k])@ == tail[k],
            after_lines(first, tail, i as int, policy) == Some(state@),
        decreases rows.len() - i,
    {
        let done = match txn_of(rows[i]) {
            Some((from, to, amount)) => {
                if from >= NUM_NAMES {
                    false
                } else {
                    let moved = match policy {
                        Policy::Whole => amount,
                        Policy::Capped => if state[from] < amount {
                            state[from]
                        } else {
                            amount
                        },
                    };
                    move_amount(&mut state, from, to, moved)
                }
            },
            None => false,
        };
        if !done {
            proof {
                lemma_after_lines_fails(first, tail, i + 1, tail.len() as int, policy);
            }
            return None;
        }
        i += 1;
    }
    checked_sum_top_three(&state)
}

/// The sum of the three greatest balances after every transfer of a ledger
/// is carried out in full. `None` where the ledger is not well written, and
/// where a balance or the sum does not fit 16 bits.
pub fn solve_part1(input: &str) -> (r: Option<i16>)
    ensures
        r == solve_spec(input.spec_bytes(), Policy::Whole),
{
    solve(input.as_bytes(), Policy::Whole)
}

/// The sum of the three greatest balances after every transfer of a ledger
/// is carried out as far as the balance of the paying account goes.
pub fn solve_part2(input: &str) -> (r: Option<i16>)
    ensures
        r == solve_spec(input.spec_bytes(), Policy::Capped),
{
    solve(input.as_bytes(), Policy::Capped)
}

/// What one account still owes another.
#[derive(Clone, Copy, Debug, PartialEq, Eq, Structural)]
pub struct Debt {
    pub from: usize,
    pub to: usize,
    pub amount: i16,
}

/// All that is owed.
pub open spec fn total_debt(debts: Seq<Debt>) -> int
    decreases debts.len(),
{
    if debts.len() == 0 {
        0
    } else {
        total_debt(debts.drop_last()) + debts.last().amount
    }
}

/// Whether every debt is of a positive amount and owed by an account of the
/// ledger.
pub open spec fn debts_sound(debts: Seq<Debt>) -> bool {
    forall|i: int| 0 <= i < debts.len() ==> (#[trigger] debts[i]).amount > 0 && debts[i].from < 26
}

/// The place of the oldest debt at or after `k` whose debtor has a positive
/// balance.
pub open spec fn first_payable(state: Seq<i16>, debts: Seq<Debt>, k: int) -> Option<int>
    decreases debts.len() - k,
{
    if k < 0 || k >= debts.len() {
        None
    } else if debts[k].from < state.len() && state[debts[k].from as int] > 0 {
        Some(k)
    } else {
        first_payable(state, debts, k + 1)
    }
}

/// The debts after `pay` is paid off the debt at place `k`: a debt that is
/// paid in full leaves the list.
pub open spec fn paid_off(debts: Seq<Debt>, k: int, pay: int) -> Seq<Debt> {
    let d = debts[k];
    if d.amount - pay > 0 {
        debts.update(k, Debt { from: d.from, to: d.to, amount: (d.amount - pay) as i16 })
    } else {
        debts.remove(k)
    }
}

/// The balances and debts after debts are repaid as long as a debtor has a
/// positive balance: the oldest such debt is repaid first, as far as the
/// balance goes.
pub open spec fn repay(state: Seq<i16>, debts: Seq<Debt>) -> Option<(Seq<i16>, Seq<Debt>)>
    decreases total_debt(debts),
{
    match first_payable(state, debts, 0) {
        None => Some((state, debts)),
        Some(k) => if 0 <= k < debts.len() && debts[k].from < state.len() {
            let d = debts[k];
            let pay = if d.amount <= state[d.from as int] {
                d.amount as int
            } else {
                state[d.from as int] as int
            };
            match transfer(state, d.from as int, d.to as int, pay) {
                Some(s2) => if 0 <= total_debt(paid_off(debts, k, pay)) < total_debt(debts) {
                    repay(s2, paid_off(debts, k, pay))
                } else {
                    None
                },
                None => None,
            }
        } else {
            None
        },
    }
}

/// The balances and debts after the transfer that a line writes: what the
/// paying account lacks becomes a debt, and then debts are repaid.
pub open spec fn after_line_owing(state: Seq<i16>, debts: Seq<Debt>, line: Seq<u8>) -> Option<
    (Seq<i16>, Seq<Debt>),
> {
    match parse_txn_line_spec(line) {
        Some((from, to, amount)) => if 0 <= from < 26 && 0 <= to {
            let short = state[from] < amount;
            if short && !fits(amount - state[from]) {
                None
            } else {
                let moved = if short {
                    state[from] as int
                } else {
                    amount
                };
                let owing = if short {
                    debts.push(Debt { from: from as usize, to: to as usize, amount: (amount - state[from]) as i16 })
                } else {
                    debts
                };
                match transfer(state, from, to, moved) {
                    Some(s2) => repay(s2, owing),
                    None => None,
                }
            }
        } else {
            None
        },
        None => None,
    }
}

/// The balances and debts after the transfers of the first `n` lines.
pub open spec fn after_lines_owing(state: Seq<i16>, rows: Seq<Seq<u8>>, n: int) -> Option<(Seq<i16>, Seq<Debt>)>
    decreases n,
{
    if n <= 0 {
        Some((state, Seq::empty()))
    } else {
        match after_lines_owing(state, rows, n - 1) {
            Some((s, debts)) => after_line_owing(s, debts, rows[n - 1]),
            None => None,
        }
    }
}

/// The sum of the three greatest balances after the transfers of a ledger
/// in which accounts run up debts.
pub open spec fn solve_owing_spec(input: Seq<u8>) -> Option<i16> {
    match (parts_spec(input), opened(input)) {
        (Some((head, tail)), Some(state)) => match after_lines_owing(state, tail, tail.len() as int) {
            Some((end, debts)) => top_sum_spec(end),
            None => None,
        },
        _ => None,
    }
}

/// Once a transfer cannot be carried out, nothing comes of the rest.
proof fn lemma_after_lines_owing_fails(state: Seq<i16>, rows: Seq<Seq<u8>>, k: int, n: int)
    requires
        0 <= k <= n,
        after_lines_owing(state, rows, k) is None,
    ensures
        after_lines_owing(state, rows, n) is None,
    decreases n - k,
{
    if k < n {
        lemma_after_lines_owing_fails(state, rows, k, n - 1);
    }
}

/// Sound debts add up to no less than each of them.
proof fn lemma_total_debt_bounds(debts: Seq<Debt>, k: int)
    requires
        debts_sound(debts),
        0 <= k < debts.len(),
    ensures
        total_debt(debts) >= debts[k].amount,
        total_debt(debts) >= 0,
        total_debt(debts.remove(k)) == total_debt(debts) - debts[k].amount,
        forall|d: Debt|
            d.amount > 0 ==> total_debt(#[trigger] debts.update(k, d)) == total_debt(debts) - debts[k].amount
                + d.amount,
    decreases debts.len(),
{
    let rest = debts.drop_last();
    assert(debts_sound(rest)) by {
        assert forall|i: int| 0 <= i < rest.len() implies (#[trigger] rest[i]).amount > 0 && rest[i].from < 26 by {
            assert(rest[i] == debts[i]);
        }
    }
    if rest.len() > 0 {
        lemma_total_debt_bounds(rest, 0);
    }
    assert(debts[debts.len() - 1].amount > 0);
    assert(total_debt(rest) >= 0);
    if k < debts.len() - 1 {
        lemma_total_debt_bounds(rest, k);
        assert(debts.remove(k).drop_last() =~= rest.remove(k));
        assert forall|d: Debt| d.amount > 0 implies total_debt(#[trigger] debts.update(k, d)) == total_debt(debts)
            - debts[k].amount + d.amount by {
            assert(debts.update(k, d).drop_last() =~= rest.update(k, d));
        }
    } else {
        assert(debts.remove(k) =~= rest);
        assert forall|d: Debt| d.amount > 0 implies total_debt(#[trigger] debts.update(k, d)) == total_debt(debts)
            - debts[k].amount + d.amount by {
            assert(debts.update(k, d).drop_last() =~= rest);
        }
    }
}

/// The place of the oldest debt whose debtor has a positive balance.
fn find_payable(state: &[i16; NUM_NAMES], debts: &Vec<Debt>) -> (r: Option<usize>)
    requires
        debts_sound(debts@),
    ensures
        match r {
            Some(k) => first_payable(state@, debts@, 0) == Some(k as int) && k < debts.len() && state[debts[k
                as int].from as int] > 0,
            None => first_payable(state@, debts@, 0) is None,
        },
{
    let mut k: usize = 0;
    while k < debts.len()
        invariant
            k <= debts.len(),
            debts_sound(debts@),
            first_payable(state@, debts@, 0) == first_payable(state@, debts@, k as int),
        decreases debts.len() - k,
    {
        if state[debts[k].from] > 0 {
            return Some(k);
        }
        k += 1;
    }
    None
}

/// Repays debts as long as a debtor has a positive balance, and says whether
/// every payment could be made.
fn settle(state: &mut [i16; NUM_NAMES], debts: &mut Vec<Debt>) -> (r: bool)
    requires
        debts_sound(old(debts)@),
    ensures
        match repay(old(state)@, old(debts)@) {
            Some((s, d)) => r && final(state)@ == s && final(debts)@ == d && debts_sound(d),
            None => !r,
        },
{
    loop
        invariant
            debts_sound(debts@),
            repay(old(state)@, old(debts)@) == repay(state@, debts@),
        decreases total_debt(debts@),
    {
        match find_payable(state, debts) {
            None => {
                return true;
            },
            Some(k) => {
                let d = debts[k];
                let pay: i16 = if d.amount <= state[d.from] {
                    d.amount
                } else {
                    state[d.from]
                };
                let ghost before = debts@;
                proof {
                    lemma_total_debt_bounds(before, k as int);
                }
                if !move_amount(state, d.from, d.to, pay) {
                    return false;
                }
                let left: i16 = d.amount - pay;
                if left > 0 {
                    let less = Debt { from: d.from, to: d.to, amount: left };
                    debts.set(k, less);
                    assert(total_debt(before.update(k as int, less)) == total_debt(before) - d.amount + left);
                    assert(debts@ == paid_off(before, k as int, pay as int));
                } else {
                    debts.remove(k);
                    assert(debts@ == paid_off(before, k as int, pay as int));
                }
                proof {
                    assert(debts_sound(debts@)) by {
                        assert forall|i: int| 0 <= i < debts.len() implies (#[trigger] debts[i]).amount > 0
                            && debts[i].from < 26 by {
                            if left > 0 {
                                if i != k {
                                    assert(debts[i] == before[i]);
                                }
                            } else {
                                if i < k {
                                    assert(debts[i] == before[i]);
                                } else {
                                    assert(debts[i] == before[i + 1]);
                                }
                            }
                        }
                    }
                    if debts.len() > 0 {
                        lemma_total_debt_bounds(debts@, 0);
                    }
                }
            },
        }
    }
}

/// The sum of the three greatest balances after every transfer of a ledger
/// is carried out as far as the balance of the paying account goes, where
/// what it lacks becomes a debt that is repaid as soon as the debtor has a
/// positive balance again.
pub fn solve_part3(input: &str) -> (r: Option<i16>)
    ensures
        r == solve_owing_spec(input.spec_bytes()),
{
    let (mut state, rows) = match read_ledger(input.as_bytes()) {
        Some(parts) => parts,
        None => { return None; },
    };
    let ghost tail = parts_spec(input.spec_bytes())->Some_0.1;
    let ghost first = state@;
    let mut debts: Vec<Debt> = Vec::new();
    let mut i: usize = 0;
    while i < rows.len()
        invariant
            i <= rows.len(),
            parts_spec(input.spec_bytes()) is Some,
            tail == parts_spec(input.spec_bytes())->Some_0.1,
            opened(input.spec_bytes()) == Some(first),
            rows.len() == tail.len(),
            forall|k: int| 0 <= k < rows.len() ==> (#[trigger] rows[k])@ == tail[k],
            debts_sound(debts@),
            after_lines_owing(first, tail, i as int) == Some((state@, debts@)),
        decreases rows.len() - i,
    {
        let done = match txn_of(rows[i]) {
            Some((from, to, amount)) => {
                if from >= NUM_NAMES {
                    false
                } else {
                    let short = state[from] < amount;
                    let owed: i32 = amount as i32 - state[from] as i32;
                    if short && owed > i16::MAX as i32 {
                        false
                    } else {
                        let moved = if short {
                            state[from]
                        } else {
                            amount
                        };
                        if short {
                            debts.push(Debt { from, to, amount: owed as i16 });
                        }
                        if move_amount(&mut state, from, to, moved) {
                            settle(&mut state, &mut debts)
                        } else {
                            false
                        }
                    }
                }
            },
            None => false,
        };
        if !done {
            proof {
                lemma_after_lines_owing_fails(first, tail, i + 1, tail.len() as int);
            }
            return None;
        }
        i += 1;
    }
    checked_sum_top_three(&state)
}

} // verus!
