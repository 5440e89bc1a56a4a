//! Exchange groups: the active markers of a group, ordered by depth, may have
//! their distributions rotated so that each takes the one of the marker
//! above it (the shallowest takes the deepest's). With two members this swaps
//! them.

use vstd::prelude::*;
use crate::binary64::{is_nan, key, order_key};
use crate::model::{ExchangeState, Marker};

verus! {

/// Marker `m` is active and belongs to exchange group `group`.
pub open spec fn member(m: Marker, group: Seq<char>) -> bool {
    !m.excluded && (m.exchange_group matches Some(g) && g@ == group)
}

/// `ord` lists the members of `group` by depth, ties in list order.
pub open spec fn by_depth(markers: Seq<Marker>, group: Seq<char>, ord: Seq<usize>) -> bool {
    &&& forall|a: int| 0 <= a < ord.len() ==> #[trigger] ord[a] < markers.len() && member(markers[ord[a] as int], group)
    &&& forall|i: usize| i < markers.len() && member(markers[i as int], group) ==> #[trigger] ord.contains(i)
    &&& forall|a: int, b: int| 0 <= a < b < ord.len() ==> shallower(markers, #[trigger] ord[a], #[trigger] ord[b])
}

pub open spec fn shallower(markers: Seq<Marker>, x: usize, y: usize) -> bool {
    order_key(markers[x as int].depth) < order_key(markers[y as int].depth)
        || (order_key(markers[x as int].depth) == order_key(markers[y as int].depth) && x < y)
}

/// The rank whose distribution rank `idx` of `k` takes.
pub open spec fn source_rank(idx: int, k: int, swapped: bool) -> int {
    if swapped { (idx + k - 1) % k } else { idx }
}

/// Marker `member` takes the distribution parameters of marker `source`.
#[derive(Clone, Copy, Debug)]
pub struct Assignment {
    pub member: usize,
    pub source: usize,
}

fn in_group(m: &Marker, group: &String) -> (r: bool)
    ensures r == member(*m, group@),
{
    if m.excluded {
        return false;
    }
    match &m.exchange_group {
        Some(g) => *g == *group,
        None => false,
    }
}

/// The members of the group of `state`, ordered by depth.
fn members_by_depth(markers: &Vec<Marker>, state: &ExchangeState) -> (ord: Vec<usize>)
    requires
        forall|i: int| 0 <= i < markers@.len() && #[trigger] member(markers@[i], state.group@) ==> !is_nan(markers@[i].depth),
    ensures
        by_depth(markers@, state.group@, ord@),
{
    let n = markers.len();
    let mut ord: Vec<usize> = Vec::new();
    let mut i: usize = 0;
    while i < n
        invariant
            n == markers@.len(),
            i <= n,
            forall|a: int| 0 <= a < ord@.len() ==> #[trigger] ord@[a] < i && member(markers@[ord@[a] as int], state.group@),
            forall|j: usize| j < i && member(markers@[j as int], state.group@) ==> #[trigger] ord@.contains(j),
            forall|a: int, b: int| 0 <= a < b < ord@.len() ==> shallower(markers@, #[trigger] ord@[a], #[trigger] ord@[b]),
        decreases n - i,
    {
        if in_group(&markers[i], &state.group) {
            let ki = key(markers[i].depth);
            let mut p: usize = 0;
            while p < ord.len() && key(markers[ord[p]].depth) <= ki
                invariant
                    p <= ord@.len(),
                    i < n,
                    n == markers@.len(),
                    forall|a: int| 0 <= a < ord@.len() ==> #[trigger] ord@[a] < i,
                    ki == order_key(markers@[i as int].depth),
                    forall|a: int| 0 <= a < p ==> order_key(markers@[#[trigger] ord@[a] as int].depth) <= ki,
                decreases ord@.len() - p,
            {
                p = p + 1;
            }
            let ghost old_ord = ord@;
            ord.insert(p, i);
            assert(ord@ =~= old_ord.insert(p as int, i));
            assert forall|a: int| 0 <= a < ord@.len() implies #[trigger] ord@[a] < i + 1 && member(markers@[ord@[a] as int], state.group@) by {
                if a < p { assert(ord@[a] == old_ord[a]); } else if a > p { assert(ord@[a] == old_ord[a - 1]); }
            }
            assert forall|a: int, b: int| 0 <= a < b < ord@.len() implies shallower(markers@, #[trigger] ord@[a], #[trigger] ord@[b]) by {
                if b < p {
                    assert(ord@[a] == old_ord[a] && ord@[b] == old_ord[b]);
                } else if b == p {
                    assert(ord@[a] == old_ord[a]);
                    assert(order_key(markers@[old_ord[a] as int].depth) <= ki);
                } else if a == p {
                    assert(ord@[b] == old_ord[b - 1]);
                    assert(order_key(markers@[old_ord[p as int] as int].depth) > ki);
                    if b - 1 > p {
                        assert(shallower(markers@, old_ord[p as int], old_ord[b - 1]));
                    }
                } else if a < p {
                    assert(ord@[a] == old_ord[a] && ord@[b] == old_ord[b - 1]);
                    assert(shallower(markers@, old_ord[a], old_ord[b - 1]));
                } else {
                    assert(ord@[a] == old_ord[a - 1] && ord@[b] == old_ord[b - 1]);
                    assert(shallower(markers@, old_ord[a - 1], old_ord[b - 1]));
                }
            }
            assert forall|j: usize| j < i + 1 && member(markers@[j as int], state.group@) implies #[trigger] ord@.contains(j) by {
                if j == i {
                    assert(ord@[p as int] == i);
                } else {
                    assert(old_ord.contains(j));
                    let w = choose|w: int| 0 <= w < old_ord.len() && old_ord[w] == j;
                    if w < p { assert(ord@[w] == j); } else { assert(ord@[w + 1] == j); }
                }
            }
        }
        i = i + 1;
    }
    ord
}

/// Which marker's distribution each member of the group of `state` takes:
/// none when the group has fewer than two active members; otherwise every
/// member, in depth order, takes its own, or, when the group is swapped, the
/// one of the member above it (the shallowest takes the deepest's).
pub fn exchange_assignments(markers: &Vec<Marker>, state: &ExchangeState) -> (r: Vec<Assignment>)
    requires
        forall|i: int| 0 <= i < markers@.len() && #[trigger] member(markers@[i], state.group@) ==> !is_nan(markers@[i].depth),
    ensures
        exists|ord: Seq<usize>| {
            &&& #[trigger] by_depth(markers@, state.group@, ord)
            &&& ord.len() < 2 ==> r@.len() == 0
            &&& ord.len() >= 2 ==> r@.len() == ord.len() && forall|idx: int| 0 <= idx < ord.len() ==> {
                &&& (#[trigger] r@[idx]).member == ord[idx]
                &&& r@[idx].source == ord[source_rank(idx, ord.len() as int, state.swapped)]
            }
        },
{
    let ord = members_by_depth(markers, state);
    let k = ord.len();
    let mut r: Vec<Assignment> = Vec::new();
    if k >= 2 {
        let mut idx: usize = 0;
        while idx < k
            invariant
                k == ord@.len(),
                k >= 2,
                idx <= k,
                r@.len() == idx,
                forall|j: int| 0 <= j < idx ==> {
                    &&& (#[trigger] r@[j]).member == ord@[j]
                    &&& r@[j].source == ord@[source_rank(j, k as int, state.swapped)]
                },
            decreases k - idx,
        {
            let src = if !state.swapped { idx } else if idx == 0 { k - 1 } else { idx - 1 };
            proof {
                if state.swapped {
                    if idx == 0 {
                        vstd::arithmetic::div_mod::lemma_fundamental_div_mod_converse(idx + k - 1, k as int, 0, k - 1);
                    } else {
                        vstd::arithmetic::div_mod::lemma_fundamental_div_mod_converse(idx + k - 1, k as int, 1, idx - 1);
                    }
                }
            }
            r.push(Assignment { member: ord[idx], source: ord[src] });
            idx = idx + 1;
        }
    }
    assert(by_depth(markers@, state.group@, ord@));
    r
}

/// The rotation of a swapped group is a permutation of its ranks: no two
/// members take the same distribution, so every distribution is used once.
pub proof fn lemma_rotation_is_permutation(k: int, a: int, b: int, swapped: bool)
    requires 0 <= a < k, 0 <= b < k, a != b,
    ensures
        0 <= source_rank(a, k, swapped) < k,
        source_rank(a, k, swapped) != source_rank(b, k, swapped),
{
    if swapped {
        vstd::arithmetic::div_mod::lemma_mod_bound(a + k - 1, k);
        vstd::arithmetic::div_mod::lemma_mod_bound(b + k - 1, k);
        if a == 0 {
            vstd::arithmetic::div_mod::lemma_fundamental_div_mod_converse(a + k - 1, k, 0, k - 1);
            vstd::arithmetic::div_mod::lemma_fundamental_div_mod_converse(b + k - 1, k, 1, b - 1);
        } else if b == 0 {
            vstd::arithmetic::div_mod::lemma_fundamental_div_mod_converse(b + k - 1, k, 0, k - 1);
            vstd::arithmetic::div_mod::lemma_fundamental_div_mod_converse(a + k - 1, k, 1, a - 1);
        } else {
            vstd::arithmetic::div_mod::lemma_fundamental_div_mod_converse(a + k - 1, k, 1, a - 1);
            vstd::arithmetic::div_mod::lemma_fundamental_div_mod_converse(b + k - 1, k, 1, b - 1);
        }
    }
}

/// With exactly two members, swapping exchanges their distributions.
pub proof fn lemma_two_members_swap()
    ensures
        source_rank(0, 2, true) == 1,
        source_rank(1, 2, true) == 0,
        source_rank(0, 2, false) == 0,
        source_rank(1, 2, false) == 1,
{
}

}
