//! Loop nesting: how deep a place in an instruction sequence lies inside loops, when the
//! brackets of a sequence are balanced, and which bracket is the partner of which.

use crate::op::Op;
use vstd::prelude::*;

verus! {

/// What one instruction does to the nesting depth.
pub open spec fn delta(op: Op) -> int {
    if op.opens() {
        1
    } else if op.closes() {
        -1
    } else {
        0
    }
}

/// The nesting depth in front of instruction `k`: the opening brackets among the first `k`
/// instructions, less the closing ones.
pub open spec fn depth(ops: Seq<Op>, k: int) -> int
    decreases k,
{
    if k <= 0 {
        0
    } else {
        depth(ops, k - 1) + delta(ops[k - 1])
    }
}

/// No closing bracket among the first `k` instructions lacks an opening one before it.
pub open spec fn nests(ops: Seq<Op>, k: int) -> bool {
    forall|j: int| 0 <= j <= k ==> depth(ops, j) >= 0
}

/// The brackets of `ops` are balanced: no closing bracket comes too early, and at the end
/// no loop is left open.
pub open spec fn balanced(ops: Seq<Op>) -> bool {
    nests(ops, ops.len() as int) && depth(ops, ops.len() as int) == 0
}

/// The loop opened at `i` is not closed by any of the first `k` instructions.
pub open spec fn still_open(ops: Seq<Op>, i: int, k: int) -> bool {
    forall|m: int| i < m <= k ==> depth(ops, m) > depth(ops, i)
}

/// The opening bracket at `i` and the closing bracket at `j` are partners: `j` is the
/// first place behind `i` where the depth is back to what it was in front of `i`.
pub open spec fn matched(ops: Seq<Op>, i: int, j: int) -> bool {
    &&& 0 <= i < j < ops.len()
    &&& ops[i].opens()
    &&& ops[j].closes()
    &&& depth(ops, j + 1) == depth(ops, i)
    &&& still_open(ops, i, j)
}

/// The closing bracket that is the partner of the opening bracket at `i`.
pub open spec fn closer(ops: Seq<Op>, i: int) -> int {
    choose|j: int| matched(ops, i, j)
}

/// The opening bracket that is the partner of the closing bracket at `j`.
pub open spec fn opener(ops: Seq<Op>, j: int) -> int {
    choose|i: int| matched(ops, i, j)
}

/// The closing bracket at `k` is the first that has no opening bracket before it.
pub open spec fn stray_close(ops: Seq<Op>, k: int) -> bool {
    &&& 0 <= k < ops.len()
    &&& nests(ops, k)
    &&& depth(ops, k + 1) < 0
}

/// Every bracket of `ops` has a partner.
pub open spec fn all_matched(ops: Seq<Op>) -> bool {
    &&& forall|i: int|
        0 <= i < ops.len() && (#[trigger] ops[i]).opens() ==> exists|j: int| matched(ops, i, j)
    &&& forall|j: int|
        0 <= j < ops.len() && (#[trigger] ops[j]).closes() ==> exists|i: int| matched(ops, i, j)
}

/// An opening bracket has at most one partner, and so has a closing bracket.
pub proof fn lemma_partner_unique(ops: Seq<Op>, i: int, j: int, i2: int, j2: int)
    requires
        matched(ops, i, j),
        matched(ops, i2, j2),
    ensures
        i == i2 <==> j == j2,
{
    if i == i2 && j != j2 {
        if j < j2 {
            assert(depth(ops, j + 1) > depth(ops, i2));
        } else {
            assert(depth(ops, j2 + 1) > depth(ops, i));
        }
    }
    if j == j2 && i != i2 {
        if i < i2 {
            assert(depth(ops, i2) > depth(ops, i));
        } else {
            assert(depth(ops, i) > depth(ops, i2));
        }
    }
}

/// Partners name each other: `closer` and `opener` are inverse on a matched pair.
pub proof fn lemma_partners(ops: Seq<Op>, i: int, j: int)
    requires
        matched(ops, i, j),
    ensures
        closer(ops, i) == j,
        opener(ops, j) == i,
{
    let j2 = closer(ops, i);
    let i2 = opener(ops, j);
    lemma_partner_unique(ops, i, j, i, j2);
    lemma_partner_unique(ops, i, j, i2, j);
}

/// There is at most one stray closing bracket: the first one.
pub proof fn lemma_stray_close_unique(ops: Seq<Op>, k: int, k2: int)
    requires
        stray_close(ops, k),
        stray_close(ops, k2),
    ensures
        k == k2,
{
    if k < k2 {
        assert(depth(ops, k + 1) >= 0);
    } else if k2 < k {
        assert(depth(ops, k2 + 1) >= 0);
    }
}

/// Looks for the partner of the opening bracket at `i` from `m` on, where the loop is
/// still open in front of `m`. In a balanced sequence the search succeeds.
proof fn lemma_find_closer(ops: Seq<Op>, i: int, m: int) -> (j: int)
    requires
        balanced(ops),
        0 <= i < m <= ops.len(),
        ops[i].opens(),
        still_open(ops, i, m),
    ensures
        matched(ops, i, j),
    decreases ops.len() - m,
{
    assert(depth(ops, i) >= 0);
    assert(depth(ops, m) > depth(ops, i));
    if m == ops.len() {
        assert(false);
        m
    } else {
        assert(depth(ops, m + 1) == depth(ops, m) + delta(ops[m]));
        if depth(ops, m + 1) > depth(ops, i) {
            assert forall|x: int| i < x <= m + 1 implies depth(ops, x) > depth(ops, i) by {
                if x <= m {
                    assert(still_open(ops, i, m));
                }
            }
            lemma_find_closer(ops, i, m + 1)
        } else {
            m
        }
    }
}

/// Looks for the partner of the closing bracket at `j` from `m` down, where every depth
/// from `m` to `j` lies above the depth behind `j`. In a balanced sequence the search
/// succeeds.
proof fn lemma_find_opener(ops: Seq<Op>, j: int, m: int) -> (i: int)
    requires
        balanced(ops),
        0 <= m <= j < ops.len(),
        ops[j].closes(),
        forall|x: int| m <= x <= j ==> #[trigger] depth(ops, x) > depth(ops, j + 1),
    ensures
        matched(ops, i, j),
    decreases m,
{
    assert(depth(ops, j + 1) >= 0);
    assert(depth(ops, m) > depth(ops, j + 1));
    if m == 0 {
        assert(false);
        m
    } else {
        assert(depth(ops, m) == depth(ops, m - 1) + delta(ops[m - 1]));
        if depth(ops, m - 1) > depth(ops, j + 1) {
            lemma_find_opener(ops, j, m - 1)
        } else {
            m - 1
        }
    }
}

/// In a balanced sequence every bracket has a partner.
pub proof fn lemma_balanced_all_matched(ops: Seq<Op>)
    requires
        balanced(ops),
    ensures
        all_matched(ops),
{
    assert forall|i: int| 0 <= i < ops.len() && (#[trigger] ops[i]).opens() implies exists|
        j: int,
    | matched(ops, i, j) by {
        assert(depth(ops, i + 1) == depth(ops, i) + delta(ops[i]));
        let j = lemma_find_closer(ops, i, i + 1);
    }
    assert forall|j: int| 0 <= j < ops.len() && (#[trigger] ops[j]).closes() implies exists|
        i: int,
    | matched(ops, i, j) by {
        assert(depth(ops, j + 1) == depth(ops, j) + delta(ops[j]));
        let i = lemma_find_opener(ops, j, j);
    }
}

/// Looks for the first place at or before `k` where the depth is below zero.
proof fn lemma_first_negative(ops: Seq<Op>, k: int) -> (n: int)
    requires
        0 <= k,
        depth(ops, k) < 0,
    ensures
        0 < n <= k,
        depth(ops, n) < 0,
        nests(ops, n - 1),
    decreases k,
{
    if exists|x: int| 0 <= x < k && depth(ops, x) < 0 {
        let x = choose|x: int| 0 <= x < k && depth(ops, x) < 0;
        lemma_first_negative(ops, x)
    } else {
        k
    }
}

/// Looks for the last place at or behind `i` where the depth is zero, in a sequence whose
/// depth never falls below zero.
proof fn lemma_last_zero(ops: Seq<Op>, i: int) -> (z: int)
    requires
        0 <= i <= ops.len(),
        depth(ops, i) == 0,
    ensures
        i <= z <= ops.len(),
        depth(ops, z) == 0,
        forall|x: int| z < x <= ops.len() ==> depth(ops, x) != 0,
    decreases ops.len() - i,
{
    if exists|x: int| i < x <= ops.len() && depth(ops, x) == 0 {
        let x = choose|x: int| i < x <= ops.len() && depth(ops, x) == 0;
        lemma_last_zero(ops, x)
    } else {
        i
    }
}

/// A sequence in which every bracket has a partner is balanced.
pub proof fn lemma_all_matched_balanced(ops: Seq<Op>)
    requires
        all_matched(ops),
    ensures
        balanced(ops),
{
    let len = ops.len() as int;
    if !nests(ops, len) {
        let k = choose|k: int| 0 <= k <= len && depth(ops, k) < 0;
        let n = lemma_first_negative(ops, k);
        assert(depth(ops, n) == depth(ops, n - 1) + delta(ops[n - 1]));
        assert(depth(ops, n - 1) >= 0);
        let c = n - 1;
        assert(ops[c].closes());
        let i = choose|i: int| matched(ops, i, c);
        assert(depth(ops, i) >= 0);
        assert(false);
    }
    if depth(ops, len) != 0 {
        assert(depth(ops, len) >= 0);
        let z = lemma_last_zero(ops, 0);
        assert(z < len);
        assert(depth(ops, z + 1) == depth(ops, z) + delta(ops[z]));
        assert(depth(ops, z + 1) >= 0);
        assert(ops[z].opens());
        let j = choose|j: int| matched(ops, z, j);
        assert(depth(ops, j + 1) == 0);
        assert(false);
    }
}

/// The brackets of a sequence are balanced exactly when every bracket has a partner.
pub proof fn lemma_balanced_iff_all_matched(ops: Seq<Op>)
    ensures
        balanced(ops) <==> all_matched(ops),
{
    if balanced(ops) {
        lemma_balanced_all_matched(ops);
    }
    if all_matched(ops) {
        lemma_all_matched_balanced(ops);
    }
}

} // verus!
