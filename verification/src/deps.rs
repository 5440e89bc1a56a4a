//! Dependency tracking of the sampled chronology: which markers and which
//! missing-core gaps each node's and each edge's quantiles depend on.
//!
//! Markers and gaps are named by keys `0 .. marker_count` and
//! `0 .. gap_count`. A node depends on the markers it carries, on every
//! marker and gap lower bound that shares a pooled block with it in any draw,
//! on the pools of its nearest marker-carrying neighbours when it carries no
//! marker itself. Gap lower bounds propagate downwards: a node without a hard
//! marker depends on every gap that any node above it depends on (nodes with
//! hard markers included), while a node with a hard marker keeps only its own.
//!
//! Each dependency set is returned as a vector of keys in increasing order,
//! which is how callers list it; while computing, a node's sets are held as
//! one flag per key, so membership and union are direct.

use vstd::prelude::*;

verus! {

/// The marker keys carried by one node: hard ones and soft ones.
pub struct NodeKeys {
    pub hard: Vec<usize>,
    pub soft: Vec<usize>,
}

/// Dependency sets, each listed in increasing key order.
pub struct Dependencies {
    pub node_markers: Vec<Vec<usize>>,
    pub node_gaps: Vec<Vec<usize>>,
    pub edge_markers: Vec<Vec<usize>>,
    pub edge_gaps: Vec<Vec<usize>>,
}

/// Node `i` carries marker `x`.
pub open spec fn owns(nodes: Seq<NodeKeys>, i: int, x: int) -> bool {
    nodes[i].hard@.contains(x as usize) || nodes[i].soft@.contains(x as usize)
}

/// Node `i` carries at least one marker.
pub open spec fn is_anchor(nodes: Seq<NodeKeys>, i: int) -> bool {
    nodes[i].hard@.len() > 0 || nodes[i].soft@.len() > 0
}

/// Node `j` is the lower end of an edge that crosses gap `g`.
pub open spec fn gap_below(gaps: Seq<Option<usize>>, j: int, g: int) -> bool {
    j > 0 && gaps[j - 1] == Some(g as usize)
}

/// In the draw whose block labels are `grp`, node `i` shares a pooled block
/// with a node that carries marker `x`.
pub open spec fn draw_pools_marker(nodes: Seq<NodeKeys>, grp: Seq<usize>, i: int, x: int) -> bool {
    exists|j: int| 0 <= j < nodes.len() && #[trigger] grp[j] == grp[i] && owns(nodes, j, x)
}

/// In the draw whose block labels are `grp`, node `i` shares a pooled block
/// with the lower end of an edge crossing gap `g`.
pub open spec fn draw_pools_gap(nodes: Seq<NodeKeys>, gaps: Seq<Option<usize>>, grp: Seq<usize>, i: int, g: int) -> bool {
    exists|j: int| 0 <= j < nodes.len() && #[trigger] grp[j] == grp[i] && gap_below(gaps, j, g)
}

/// In some draw, node `i` is pooled with a node that carries marker `x`.
pub open spec fn pool_marker(nodes: Seq<NodeKeys>, groups: Seq<Vec<usize>>, i: int, x: int) -> bool {
    exists|d: int| 0 <= d < groups.len() && #[trigger] draw_pools_marker(nodes, groups[d]@, i, x)
}

/// In some draw, node `i` is pooled with the lower end of an edge crossing gap `g`.
pub open spec fn pool_gap(nodes: Seq<NodeKeys>, gaps: Seq<Option<usize>>, groups: Seq<Vec<usize>>, i: int, g: int) -> bool {
    exists|d: int| 0 <= d < groups.len() && #[trigger] draw_pools_gap(nodes, gaps, groups[d]@, i, g)
}

/// The nearest marker-carrying node at or above `i`, or -1.
pub open spec fn anchor_above(nodes: Seq<NodeKeys>, i: int) -> int
    decreases i + 1,
{
    if i < 0 {
        -1
    } else if is_anchor(nodes, i) {
        i
    } else {
        anchor_above(nodes, i - 1)
    }
}

/// The nearest marker-carrying node at or below `i`, or -1.
pub open spec fn anchor_below(nodes: Seq<NodeKeys>, i: int) -> int
    decreases nodes.len() - i,
{
    if i >= nodes.len() || i < 0 {
        -1
    } else if is_anchor(nodes, i) {
        i
    } else {
        anchor_below(nodes, i + 1)
    }
}

/// Marker dependency of node `i` through pooling, widened for a node without markers
/// to the pools of its nearest marker-carrying neighbours.
pub open spec fn widened_marker(nodes: Seq<NodeKeys>, groups: Seq<Vec<usize>>, i: int, x: int) -> bool {
    let a = anchor_above(nodes, i);
    let b = anchor_below(nodes, i);
    pool_marker(nodes, groups, i, x) || (!is_anchor(nodes, i) && (
        (a >= 0 && pool_marker(nodes, groups, a, x)) || (b >= 0 && pool_marker(nodes, groups, b, x))))
}

pub open spec fn widened_gap(nodes: Seq<NodeKeys>, gaps: Seq<Option<usize>>, groups: Seq<Vec<usize>>, i: int, g: int) -> bool {
    let a = anchor_above(nodes, i);
    let b = anchor_below(nodes, i);
    pool_gap(nodes, gaps, groups, i, g) || (!is_anchor(nodes, i) && (
        (a >= 0 && pool_gap(nodes, gaps, groups, a, g)) || (b >= 0 && pool_gap(nodes, gaps, groups, b, g))))
}

/// Node `i` depends on marker `x`.
pub open spec fn dep_marker(nodes: Seq<NodeKeys>, groups: Seq<Vec<usize>>, i: int, x: int) -> bool {
    owns(nodes, i, x) || widened_marker(nodes, groups, i, x)
}

/// Node `i` depends on gap `g`: a node with a hard marker keeps its own widened
/// gap dependencies; any other node inherits those of every node at or above it.
pub open spec fn dep_gap(nodes: Seq<NodeKeys>, gaps: Seq<Option<usize>>, groups: Seq<Vec<usize>>, i: int, g: int) -> bool {
    if nodes[i].hard@.len() > 0 {
        widened_gap(nodes, gaps, groups, i, g)
    } else {
        exists|k: int| 0 <= k <= i && #[trigger] widened_gap(nodes, gaps, groups, k, g)
    }
}

/// Edge `k` (from node `k` to node `k + 1`) depends on marker `x`.
pub open spec fn edge_dep_marker(nodes: Seq<NodeKeys>, groups: Seq<Vec<usize>>, k: int, x: int) -> bool {
    dep_marker(nodes, groups, k, x) || dep_marker(nodes, groups, k + 1, x)
}

/// Edge `k` depends on gap `g`.
pub open spec fn edge_dep_gap(nodes: Seq<NodeKeys>, gaps: Seq<Option<usize>>, groups: Seq<Vec<usize>>, k: int, g: int) -> bool {
    dep_gap(nodes, gaps, groups, k, g) || dep_gap(nodes, gaps, groups, k + 1, g) || gaps[k] == Some(g as usize)
}

/// `list` names, in strictly increasing order, exactly the keys below `bound` that satisfy `p`.
pub open spec fn lists(list: Seq<usize>, bound: int, p: spec_fn(int) -> bool) -> bool {
    &&& forall|a: int, b: int| 0 <= a < b < list.len() ==> list[a] < list[b]
    &&& forall|a: int| 0 <= a < list.len() ==> list[a] < bound && #[trigger] p(list[a] as int)
    &&& forall|x: int| 0 <= x < bound && #[trigger] p(x) ==> list.contains(x as usize)
}

/// The keys `x` with `row[x]`, in increasing order.
fn listed(row: &Vec<bool>) -> (list: Vec<usize>)
    ensures
        forall|a: int, b: int| 0 <= a < b < list@.len() ==> list@[a] < list@[b],
        forall|a: int| 0 <= a < list@.len() ==> list@[a] < row@.len() && row@[list@[a] as int],
        forall|x: int| 0 <= x < row@.len() && row@[x] ==> list@.contains(x as usize),
{
    let mut list: Vec<usize> = Vec::new();
    let mut x: usize = 0;
    while x < row.len()
        invariant
            x <= row@.len(),
            forall|a: int, b: int| 0 <= a < b < list@.len() ==> list@[a] < list@[b],
            forall|a: int| 0 <= a < list@.len() ==> list@[a] < x && row@[list@[a] as int],
            forall|y: int| 0 <= y < x && row@[y] ==> list@.contains(y as usize),
        decreases row@.len() - x,
    {
        let ghost before = list@;
        if row[x] {
            list.push(x);
            assert(list@[list@.len() - 1] == x);
            assert forall|y: int| 0 <= y < x && row@[y] implies list@.contains(y as usize) by {
                let w = choose|w: int| 0 <= w < before.len() && before[w] == y as usize;
                assert(list@[w] == y as usize);
            }
        }
        x = x + 1;
    }
    list
}

/// A list produced by `listed` from a row that tells `p` lists exactly the keys satisfying `p`.
proof fn lemma_listed(row: Seq<bool>, list: Seq<usize>, p: spec_fn(int) -> bool)
    requires
        forall|x: int| 0 <= x < row.len() ==> (row[x] <==> p(x)),
        forall|a: int, b: int| 0 <= a < b < list.len() ==> list[a] < list[b],
        forall|a: int| 0 <= a < list.len() ==> list[a] < row.len() && row[list[a] as int],
        forall|x: int| 0 <= x < row.len() && row[x] ==> list.contains(x as usize),
    ensures
        lists(list, row.len() as int, p),
{
    assert forall|a: int| 0 <= a < list.len() implies list[a] < row.len() && #[trigger] p(list[a] as int) by {
        assert(row[list[a] as int]);
    }
    assert forall|x: int| 0 <= x < row.len() && #[trigger] p(x) implies list.contains(x as usize) by {
        assert(row[x]);
    }
}

/// Sets `row[x]` for every key `x` of `keys`.
fn mark_all(row: &mut Vec<bool>, keys: &Vec<usize>)
    requires forall|a: int| 0 <= a < keys@.len() ==> keys@[a] < old(row)@.len(),
    ensures
        final(row)@.len() == old(row)@.len(),
        forall|x: int| 0 <= x < old(row)@.len() ==> (#[trigger] final(row)@[x] <==> (old(row)@[x] || keys@.contains(x as usize))),
{
    let ghost orig = row@;
    assert(orig.len() == row.len());
    let mut t: usize = 0;
    while t < keys.len()
        invariant
            t <= keys@.len(),
            orig.len() <= usize::MAX,
            row@.len() == orig.len(),
            forall|a: int| 0 <= a < keys@.len() ==> keys@[a] < orig.len(),
            forall|x: int| 0 <= x < orig.len() ==> (row@[x] <==> (orig[x] || exists|a: int| 0 <= a < t && keys@[a] == x as usize)),
        decreases keys@.len() - t,
    {
        let k = keys[t];
        assert(forall|x: int| 0 <= x < orig.len() ==> (row@[x] <==> (orig[x] || exists|a: int| 0 <= a < t && keys@[a] == x as usize)));
        let ghost before = row@;
        let ghost t0 = t;
        row.set(k, true);
        t = t + 1;
        assert forall|x: int| 0 <= x < orig.len() implies (row@[x] <==> (orig[x] || exists|a: int| 0 <= a < t && keys@[a] == x as usize)) by {
            if x == k as int {
                assert(keys@[t0 as int] == x as usize);
            } else {
                assert(row@[x] == before[x]);
                assert(before[x] <==> (orig[x] || exists|a: int| 0 <= a < t0 && keys@[a] == x as usize));
                if exists|a: int| 0 <= a < t && keys@[a] == x as usize {
                    let a = choose|a: int| 0 <= a < t && keys@[a] == x as usize;
                    assert(keys@[t0 as int] == k);
                    assert((x as usize) as int == x);
                    assert(a < t0);
                }
            }
        }
    }
}

/// `row[x] |= other[x]` for every key.
fn or_into(row: &mut Vec<bool>, other: &Vec<bool>)
    requires old(row)@.len() == other@.len(),
    ensures
        final(row)@.len() == old(row)@.len(),
        forall|x: int| 0 <= x < old(row)@.len() ==> (#[trigger] final(row)@[x] <==> (old(row)@[x] || other@[x])),
{
    let ghost orig = row@;
    let mut x: usize = 0;
    while x < row.len()
        invariant
            x <= row@.len(),
            row@.len() == orig.len(),
            orig.len() == other@.len(),
            forall|y: int| 0 <= y < x ==> (row@[y] <==> (orig[y] || other@[y])),
            forall|y: int| x <= y < row@.len() ==> row@[y] == orig[y],
        decreases row@.len() - x,
    {
        assert(forall|y: int| 0 <= y < x ==> (row@[y] <==> (orig[y] || other@[y])));
        let ghost before = row@;
        assert(forall|y: int| 0 <= y < x ==> (before[y] <==> (orig[y] || other@[y])));
        if other[x] {
            row.set(x, true);
        }
        assert forall|y: int| 0 <= y < x + 1 implies (row@[y] <==> (orig[y] || other@[y])) by {
            if y < x {
                assert(before[y] <==> (orig[y] || other@[y]));
                assert(row@[y] == before[y]);
            } else {
                assert(before[y] == orig[y]);
            }
        }
        x = x + 1;
    }
}

fn all_false(len: usize) -> (row: Vec<bool>)
    ensures row@.len() == len, forall|x: int| 0 <= x < len ==> !row@[x],
{
    let mut row: Vec<bool> = Vec::new();
    while row.len() < len
        invariant row@.len() <= len, forall|x: int| 0 <= x < row@.len() ==> !row@[x],
        decreases len - row@.len(),
    {
        row.push(false);
    }
    row
}


/// Every key named by the nodes is below `marker_count`.
pub open spec fn keys_below(nodes: Seq<NodeKeys>, marker_count: int) -> bool {
    &&& forall|i: int, a: int| 0 <= i < nodes.len() && 0 <= a < nodes[i].hard@.len()
        ==> #[trigger] nodes[i].hard@[a] < marker_count
    &&& forall|i: int, a: int| 0 <= i < nodes.len() && 0 <= a < nodes[i].soft@.len()
        ==> #[trigger] nodes[i].soft@[a] < marker_count
}

pub open spec fn gaps_below(gaps: Seq<Option<usize>>, gap_count: int) -> bool {
    forall|k: int| 0 <= k < gaps.len() ==> (#[trigger] gaps[k] matches Some(g) ==> g < gap_count)
}

fn draw_marker_row(nodes: &Vec<NodeKeys>, grp: &Vec<usize>, i: usize, marker_count: usize) -> (row: Vec<bool>)
    requires
        grp@.len() == nodes@.len(),
        i < nodes@.len(),
        keys_below(nodes@, marker_count as int),
    ensures
        row@.len() == marker_count,
        forall|x: int| 0 <= x < marker_count ==> (row@[x] <==> draw_pools_marker(nodes@, grp@, i as int, x)),
{
    let mut row = all_false(marker_count);
    let mut j: usize = 0;
    while j < nodes.len()
        invariant
            j <= nodes@.len(),
            grp@.len() == nodes@.len(),
            i < nodes@.len(),
            keys_below(nodes@, marker_count as int),
            row@.len() == marker_count,
            forall|x: int| 0 <= x < marker_count ==> (row@[x] <==>
                exists|j2: int| 0 <= j2 < j && #[trigger] grp@[j2] == grp@[i as int] && owns(nodes@, j2, x)),
        decreases nodes@.len() - j,
    {
        let ghost before = row@;
        let ghost j0 = j as int;
        assert(forall|x: int| 0 <= x < marker_count ==> (before[x] <==>
                exists|j2: int| 0 <= j2 < j0 && #[trigger] grp@[j2] == grp@[i as int] && owns(nodes@, j2, x)));
        if grp[j] == grp[i] {
            assert(forall|a: int| 0 <= a < nodes@[j as int].hard@.len() ==> nodes@[j as int].hard@[a] < marker_count);
            assert(forall|a: int| 0 <= a < nodes@[j as int].soft@.len() ==> nodes@[j as int].soft@[a] < marker_count);
            mark_all(&mut row, &nodes[j].hard);
            mark_all(&mut row, &nodes[j].soft);
        }
        j = j + 1;
        assert forall|x: int| 0 <= x < marker_count implies (row@[x] <==>
                exists|j2: int| 0 <= j2 < j && #[trigger] grp@[j2] == grp@[i as int] && owns(nodes@, j2, x)) by {
            if exists|j2: int| 0 <= j2 < j && #[trigger] grp@[j2] == grp@[i as int] && owns(nodes@, j2, x) {
                let j2 = choose|j2: int| 0 <= j2 < j && #[trigger] grp@[j2] == grp@[i as int] && owns(nodes@, j2, x);
                if j2 < j0 {
                    assert(before[x]);
                }
            }
            if before[x] {
                let j2 = choose|j2: int| 0 <= j2 < j0 && #[trigger] grp@[j2] == grp@[i as int] && owns(nodes@, j2, x);
                assert(0 <= j2 < j && grp@[j2] == grp@[i as int] && owns(nodes@, j2, x));
            }
            if row@[x] && !before[x] {
                assert(0 <= j0 < j && grp@[j0] == grp@[i as int] && owns(nodes@, j0, x));
            }
        }
    }
    row
}


fn draw_gap_row(nodes: &Vec<NodeKeys>, gaps: &Vec<Option<usize>>, grp: &Vec<usize>, i: usize, gap_count: usize) -> (row: Vec<bool>)
    requires
        grp@.len() == nodes@.len(),
        gaps@.len() + 1 == nodes@.len(),
        i < nodes@.len(),
        gaps_below(gaps@, gap_count as int),
    ensures
        row@.len() == gap_count,
        forall|g: int| 0 <= g < gap_count ==> (row@[g] <==> draw_pools_gap(nodes@, gaps@, grp@, i as int, g)),
{
    let mut row = all_false(gap_count);
    let mut j: usize = 0;
    while j < nodes.len()
        invariant
            j <= nodes@.len(),
            grp@.len() == nodes@.len(),
            gaps@.len() + 1 == nodes@.len(),
            i < nodes@.len(),
            gaps_below(gaps@, gap_count as int),
            row@.len() == gap_count,
            forall|g: int| 0 <= g < gap_count ==> (row@[g] <==>
                exists|j2: int| 0 <= j2 < j && #[trigger] grp@[j2] == grp@[i as int] && gap_below(gaps@, j2, g)),
        decreases nodes@.len() - j,
    {
        let ghost before = row@;
        let ghost j0 = j as int;
        assert(forall|g: int| 0 <= g < gap_count ==> (before[g] <==>
                exists|j2: int| 0 <= j2 < j0 && #[trigger] grp@[j2] == grp@[i as int] && gap_below(gaps@, j2, g)));
        if j > 0 && grp[j] == grp[i] {
            match gaps[j - 1] {
                Some(gk) => {
                    assert(gaps@[j - 1] matches Some(h) ==> h < gap_count);
                    row.set(gk, true);
                }
                None => {}
            }
        }
        j = j + 1;
        assert forall|g: int| 0 <= g < gap_count implies (row@[g] <==>
                exists|j2: int| 0 <= j2 < j && #[trigger] grp@[j2] == grp@[i as int] && gap_below(gaps@, j2, g)) by {
            if exists|j2: int| 0 <= j2 < j && #[trigger] grp@[j2] == grp@[i as int] && gap_below(gaps@, j2, g) {
                let j2 = choose|j2: int| 0 <= j2 < j && #[trigger] grp@[j2] == grp@[i as int] && gap_below(gaps@, j2, g);
                if j2 < j0 {
                    assert(before[g]);
                } else {
                    assert((g as usize) as int == g);
                }
            }
            if before[g] {
                let j2 = choose|j2: int| 0 <= j2 < j0 && #[trigger] grp@[j2] == grp@[i as int] && gap_below(gaps@, j2, g);
                assert(0 <= j2 < j && grp@[j2] == grp@[i as int] && gap_below(gaps@, j2, g));
            }
            if row@[g] && !before[g] {
                assert(0 <= j0 < j && grp@[j0] == grp@[i as int] && gap_below(gaps@, j0, g));
            }
        }
    }
    row
}

/// Markers node `i` is pooled with in any draw.
fn pool_marker_row(nodes: &Vec<NodeKeys>, groups: &Vec<Vec<usize>>, i: usize, marker_count: usize) -> (row: Vec<bool>)
    requires
        forall|d: int| 0 <= d < groups@.len() ==> (#[trigger] groups@[d])@.len() == nodes@.len(),
        i < nodes@.len(),
        keys_below(nodes@, marker_count as int),
    ensures
        row@.len() == marker_count,
        forall|x: int| 0 <= x < marker_count ==> (row@[x] <==> pool_marker(nodes@, groups@, i as int, x)),
{
    let mut row = all_false(marker_count);
    let mut d: usize = 0;
    while d < groups.len()
        invariant
            d <= groups@.len(),
            forall|d2: int| 0 <= d2 < groups@.len() ==> (#[trigger] groups@[d2])@.len() == nodes@.len(),
            i < nodes@.len(),
            keys_below(nodes@, marker_count as int),
            row@.len() == marker_count,
            forall|x: int| 0 <= x < marker_count ==> (row@[x] <==>
                exists|d2: int| 0 <= d2 < d && #[trigger] draw_pools_marker(nodes@, groups@[d2]@, i as int, x)),
        decreases groups@.len() - d,
    {
        let ghost before = row@;
        let ghost d0 = d as int;
        assert(forall|x: int| 0 <= x < marker_count ==> (before[x] <==>
                exists|d2: int| 0 <= d2 < d0 && #[trigger] draw_pools_marker(nodes@, groups@[d2]@, i as int, x)));
        let one = draw_marker_row(nodes, &groups[d], i, marker_count);
        or_into(&mut row, &one);
        d = d + 1;
        assert forall|x: int| 0 <= x < marker_count implies (row@[x] <==>
                exists|d2: int| 0 <= d2 < d && #[trigger] draw_pools_marker(nodes@, groups@[d2]@, i as int, x)) by {
            if exists|d2: int| 0 <= d2 < d && #[trigger] draw_pools_marker(nodes@, groups@[d2]@, i as int, x) {
                let d2 = choose|d2: int| 0 <= d2 < d && #[trigger] draw_pools_marker(nodes@, groups@[d2]@, i as int, x);
                if d2 < d0 {
                    assert(before[x]);
                }
            }
            if before[x] {
                let d2 = choose|d2: int| 0 <= d2 < d0 && #[trigger] draw_pools_marker(nodes@, groups@[d2]@, i as int, x);
                assert(0 <= d2 < d && draw_pools_marker(nodes@, groups@[d2]@, i as int, x));
            }
            if one@[x] {
                assert(0 <= d0 < d && draw_pools_marker(nodes@, groups@[d0]@, i as int, x));
            }
        }
    }
    row
}

/// Gap lower bounds node `i` is pooled with in any draw.
fn pool_gap_row(nodes: &Vec<NodeKeys>, gaps: &Vec<Option<usize>>, groups: &Vec<Vec<usize>>, i: usize, gap_count: usize) -> (row: Vec<bool>)
    requires
        forall|d: int| 0 <= d < groups@.len() ==> (#[trigger] groups@[d])@.len() == nodes@.len(),
        gaps@.len() + 1 == nodes@.len(),
        i < nodes@.len(),
        gaps_below(gaps@, gap_count as int),
    ensures
        row@.len() == gap_count,
        forall|g: int| 0 <= g < gap_count ==> (row@[g] <==> pool_gap(nodes@, gaps@, groups@, i as int, g)),
{
    let mut row = all_false(gap_count);
    let mut d: usize = 0;
    while d < groups.len()
        invariant
            d <= groups@.len(),
            forall|d2: int| 0 <= d2 < groups@.len() ==> (#[trigger] groups@[d2])@.len() == nodes@.len(),
            gaps@.len() + 1 == nodes@.len(),
            i < nodes@.len(),
            gaps_below(gaps@, gap_count as int),
            row@.len() == gap_count,
            forall|g: int| 0 <= g < gap_count ==> (row@[g] <==>
                exists|d2: int| 0 <= d2 < d && #[trigger] draw_pools_gap(nodes@, gaps@, groups@[d2]@, i as int, g)),
        decreases groups@.len() - d,
    {
        let ghost before = row@;
        let ghost d0 = d as int;
        assert(forall|g: int| 0 <= g < gap_count ==> (before[g] <==>
                exists|d2: int| 0 <= d2 < d0 && #[trigger] draw_pools_gap(nodes@, gaps@, groups@[d2]@, i as int, g)));
        let one = draw_gap_row(nodes, gaps, &groups[d], i, gap_count);
        or_into(&mut row, &one);
        d = d + 1;
        assert forall|g: int| 0 <= g < gap_count implies (row@[g] <==>
                exists|d2: int| 0 <= d2 < d && #[trigger] draw_pools_gap(nodes@, gaps@, groups@[d2]@, i as int, g)) by {
            if exists|d2: int| 0 <= d2 < d && #[trigger] draw_pools_gap(nodes@, gaps@, groups@[d2]@, i as int, g) {
                let d2 = choose|d2: int| 0 <= d2 < d && #[trigger] draw_pools_gap(nodes@, gaps@, groups@[d2]@, i as int, g);
                if d2 < d0 {
                    assert(before[g]);
                }
            }
            if before[g] {
                let d2 = choose|d2: int| 0 <= d2 < d0 && #[trigger] draw_pools_gap(nodes@, gaps@, groups@[d2]@, i as int, g);
                assert(0 <= d2 < d && draw_pools_gap(nodes@, gaps@, groups@[d2]@, i as int, g));
            }
            if one@[g] {
                assert(0 <= d0 < d && draw_pools_gap(nodes@, gaps@, groups@[d0]@, i as int, g));
            }
        }
    }
    row
}


fn anchor_above_of(nodes: &Vec<NodeKeys>, i: usize) -> (r: Option<usize>)
    requires i < nodes@.len(),
    ensures
        match r {
            Some(k) => k as int == anchor_above(nodes@, i as int) && k <= i,
            None => anchor_above(nodes@, i as int) == -1,
        },
{
    let n = nodes.len();
    let mut k: usize = i + 1;
    while k > 0
        invariant
            k <= i + 1,
            i < nodes@.len(),
            anchor_above(nodes@, i as int) == anchor_above(nodes@, k - 1),
        decreases k,
    {
        if nodes[k - 1].hard.len() > 0 || nodes[k - 1].soft.len() > 0 {
            return Some(k - 1);
        }
        k = k - 1;
    }
    None
}

fn anchor_below_of(nodes: &Vec<NodeKeys>, i: usize) -> (r: Option<usize>)
    requires i < nodes@.len(),
    ensures
        match r {
            Some(k) => k as int == anchor_below(nodes@, i as int) && i <= k < nodes@.len(),
            None => anchor_below(nodes@, i as int) == -1,
        },
{
    let mut k: usize = i;
    while k < nodes.len()
        invariant
            i <= k <= nodes@.len(),
            anchor_below(nodes@, i as int) == anchor_below(nodes@, k as int),
        decreases nodes@.len() - k,
    {
        if nodes[k].hard.len() > 0 || nodes[k].soft.len() > 0 {
            return Some(k);
        }
        k = k + 1;
    }
    None
}

/// `rows[k][x]` tells whether node `k` is pooled with marker `x`.
pub open spec fn marker_pool_rows(rows: Seq<Vec<bool>>, nodes: Seq<NodeKeys>, groups: Seq<Vec<usize>>, m: int) -> bool {
    &&& rows.len() == nodes.len()
    &&& forall|k: int| 0 <= k < rows.len() ==> (#[trigger] rows[k])@.len() == m
    &&& forall|k: int, x: int| 0 <= k < rows.len() && 0 <= x < m ==> (#[trigger] rows[k]@[x] <==> pool_marker(nodes, groups, k, x))
}

/// `rows[k][g]` tells whether node `k` is pooled with gap `g`.
pub open spec fn gap_pool_rows(rows: Seq<Vec<bool>>, nodes: Seq<NodeKeys>, gaps: Seq<Option<usize>>, groups: Seq<Vec<usize>>, m: int) -> bool {
    &&& rows.len() == nodes.len()
    &&& forall|k: int| 0 <= k < rows.len() ==> (#[trigger] rows[k])@.len() == m
    &&& forall|k: int, g: int| 0 <= k < rows.len() && 0 <= g < m ==> (#[trigger] rows[k]@[g] <==> pool_gap(nodes, gaps, groups, k, g))
}

fn dep_marker_row(nodes: &Vec<NodeKeys>, groups: &Vec<Vec<usize>>, pm: &Vec<Vec<bool>>, i: usize, marker_count: usize) -> (row: Vec<bool>)
    requires
        i < nodes@.len(),
        keys_below(nodes@, marker_count as int),
        marker_pool_rows(pm@, nodes@, groups@, marker_count as int),
    ensures
        row@.len() == marker_count,
        forall|x: int| 0 <= x < marker_count ==> (row@[x] <==> dep_marker(nodes@, groups@, i as int, x)),
{
    let mut row = all_false(marker_count);
    or_into(&mut row, &pm[i]);
    let anchor = nodes[i].hard.len() > 0 || nodes[i].soft.len() > 0;
    let above = anchor_above_of(nodes, i);
    let below = anchor_below_of(nodes, i);
    let ghost mid = row@;
    if !anchor {
        match above {
            Some(a) => { or_into(&mut row, &pm[a]); }
            None => {}
        }
        match below {
            Some(b) => { or_into(&mut row, &pm[b]); }
            None => {}
        }
    }
    let ghost wide = row@;
    assert forall|x: int| 0 <= x < marker_count implies (wide[x] <==> widened_marker(nodes@, groups@, i as int, x)) by {
        assert(mid[x] == pm@[i as int]@[x]);
        match above {
            Some(a) => { assert(pm@[a as int]@[x] <==> pool_marker(nodes@, groups@, a as int, x)); }
            None => {}
        }
        match below {
            Some(b) => { assert(pm@[b as int]@[x] <==> pool_marker(nodes@, groups@, b as int, x)); }
            None => {}
        }
    }
    assert(forall|a: int| 0 <= a < nodes@[i as int].hard@.len() ==> nodes@[i as int].hard@[a] < marker_count);
    assert(forall|a: int| 0 <= a < nodes@[i as int].soft@.len() ==> nodes@[i as int].soft@[a] < marker_count);
    mark_all(&mut row, &nodes[i].hard);
    mark_all(&mut row, &nodes[i].soft);
    row
}

fn widened_gap_row(nodes: &Vec<NodeKeys>, gaps: &Vec<Option<usize>>, groups: &Vec<Vec<usize>>, pg: &Vec<Vec<bool>>, i: usize, gap_count: usize) -> (row: Vec<bool>)
    requires
        i < nodes@.len(),
        gap_pool_rows(pg@, nodes@, gaps@, groups@, gap_count as int),
    ensures
        row@.len() == gap_count,
        forall|g: int| 0 <= g < gap_count ==> (row@[g] <==> widened_gap(nodes@, gaps@, groups@, i as int, g)),
{
    let mut row = all_false(gap_count);
    or_into(&mut row, &pg[i]);
    let anchor = nodes[i].hard.len() > 0 || nodes[i].soft.len() > 0;
    let above = anchor_above_of(nodes, i);
    let below = anchor_below_of(nodes, i);
    let ghost mid = row@;
    if !anchor {
        match above {
            Some(a) => { or_into(&mut row, &pg[a]); }
            None => {}
        }
        match below {
            Some(b) => { or_into(&mut row, &pg[b]); }
            None => {}
        }
    }
    assert forall|g: int| 0 <= g < gap_count implies (row@[g] <==> widened_gap(nodes@, gaps@, groups@, i as int, g)) by {
        assert(mid[g] == pg@[i as int]@[g]);
        match above {
            Some(a) => { assert(pg@[a as int]@[g] <==> pool_gap(nodes@, gaps@, groups@, a as int, g)); }
            None => {}
        }
        match below {
            Some(b) => { assert(pg@[b as int]@[g] <==> pool_gap(nodes@, gaps@, groups@, b as int, g)); }
            None => {}
        }
    }
    row
}


/// The dependency sets of every node and every edge of a sampled chronology.
///
/// `nodes[i]` names the markers carried by node `i`; `gaps[k]` names the gap
/// crossed by the edge from node `k` to node `k + 1`, if any; `groups[d][i]`
/// is the pooled block that node `i` fell in during draw `d`.
pub fn dependencies(
    nodes: &Vec<NodeKeys>,
    gaps: &Vec<Option<usize>>,
    groups: &Vec<Vec<usize>>,
    marker_count: usize,
    gap_count: usize,
) -> (deps: Dependencies)
    requires
        nodes@.len() >= 1,
        gaps@.len() + 1 == nodes@.len(),
        forall|d: int| 0 <= d < groups@.len() ==> (#[trigger] groups@[d])@.len() == nodes@.len(),
        keys_below(nodes@, marker_count as int),
        gaps_below(gaps@, gap_count as int),
    ensures
        deps.node_markers@.len() == nodes@.len(),
        deps.node_gaps@.len() == nodes@.len(),
        deps.edge_markers@.len() == gaps@.len(),
        deps.edge_gaps@.len() == gaps@.len(),
        forall|i: int| 0 <= i < nodes@.len() ==> lists(#[trigger] deps.node_markers@[i]@, marker_count as int,
            |x: int| dep_marker(nodes@, groups@, i, x)),
        forall|i: int| 0 <= i < nodes@.len() ==> lists(#[trigger] deps.node_gaps@[i]@, gap_count as int,
            |g: int| dep_gap(nodes@, gaps@, groups@, i, g)),
        forall|k: int| 0 <= k < gaps@.len() ==> lists(#[trigger] deps.edge_markers@[k]@, marker_count as int,
            |x: int| edge_dep_marker(nodes@, groups@, k, x)),
        forall|k: int| 0 <= k < gaps@.len() ==> lists(#[trigger] deps.edge_gaps@[k]@, gap_count as int,
            |g: int| edge_dep_gap(nodes@, gaps@, groups@, k, g)),
{
    let n = nodes.len();
    // Pools, per node.
    let mut pm: Vec<Vec<bool>> = Vec::new();
    let mut pg: Vec<Vec<bool>> = Vec::new();
    let mut i: usize = 0;
    while i < n
        invariant
            n == nodes@.len(),
            i <= n,
            gaps@.len() + 1 == nodes@.len(),
            forall|d: int| 0 <= d < groups@.len() ==> (#[trigger] groups@[d])@.len() == nodes@.len(),
            keys_below(nodes@, marker_count as int),
            gaps_below(gaps@, gap_count as int),
            pm@.len() == i,
            pg@.len() == i,
            forall|k: int| 0 <= k < i ==> (#[trigger] pm@[k])@.len() == marker_count,
            forall|k: int, x: int| 0 <= k < i && 0 <= x < marker_count ==> (#[trigger] pm@[k]@[x] <==> pool_marker(nodes@, groups@, k, x)),
            forall|k: int| 0 <= k < i ==> (#[trigger] pg@[k])@.len() == gap_count,
            forall|k: int, g: int| 0 <= k < i && 0 <= g < gap_count ==> (#[trigger] pg@[k]@[g] <==> pool_gap(nodes@, gaps@, groups@, k, g)),
        decreases n - i,
    {
        pm.push(pool_marker_row(nodes, groups, i, marker_count));
        pg.push(pool_gap_row(nodes, gaps, groups, i, gap_count));
        i = i + 1;
    }
    // Node dependencies.
    let mut node_rows: Vec<Vec<bool>> = Vec::new();
    let mut gap_rows: Vec<Vec<bool>> = Vec::new();
    let mut carry = all_false(gap_count);
    let mut node_markers: Vec<Vec<usize>> = Vec::new();
    let mut node_gaps: Vec<Vec<usize>> = Vec::new();
    i = 0;
    while i < n
        invariant
            n == nodes@.len(),
            i <= n,
            gaps@.len() + 1 == nodes@.len(),
            keys_below(nodes@, marker_count as int),
            marker_pool_rows(pm@, nodes@, groups@, marker_count as int),
            gap_pool_rows(pg@, nodes@, gaps@, groups@, gap_count as int),
            carry@.len() == gap_count,
            forall|g: int| 0 <= g < gap_count ==> (carry@[g] <==>
                exists|k: int| 0 <= k < i && #[trigger] widened_gap(nodes@, gaps@, groups@, k, g)),
            node_rows@.len() == i,
            gap_rows@.len() == i,
            node_markers@.len() == i,
            node_gaps@.len() == i,
            forall|k: int| 0 <= k < i ==> (#[trigger] node_rows@[k])@.len() == marker_count,
            forall|k: int, x: int| 0 <= k < i && 0 <= x < marker_count ==> (#[trigger] node_rows@[k]@[x] <==> dep_marker(nodes@, groups@, k, x)),
            forall|k: int| 0 <= k < i ==> (#[trigger] gap_rows@[k])@.len() == gap_count,
            forall|k: int, g: int| 0 <= k < i && 0 <= g < gap_count ==> (#[trigger] gap_rows@[k]@[g] <==> dep_gap(nodes@, gaps@, groups@, k, g)),
            forall|k: int| 0 <= k < i ==> lists(#[trigger] node_markers@[k]@, marker_count as int,
                |x: int| dep_marker(nodes@, groups@, k, x)),
            forall|k: int| 0 <= k < i ==> lists(#[trigger] node_gaps@[k]@, gap_count as int,
                |g: int| dep_gap(nodes@, gaps@, groups@, k, g)),
        decreases n - i,
    {
        let mrow = dep_marker_row(nodes, groups, &pm, i, marker_count);
        let wrow = widened_gap_row(nodes, gaps, groups, &pg, i, gap_count);
        let ghost carry_before = carry@;
        assert(forall|g: int| 0 <= g < gap_count ==> (carry_before[g] <==>
                exists|k: int| 0 <= k < i && #[trigger] widened_gap(nodes@, gaps@, groups@, k, g)));
        or_into(&mut carry, &wrow);
        let mut grow = all_false(gap_count);
        if nodes[i].hard.len() > 0 {
            or_into(&mut grow, &wrow);
        } else {
            or_into(&mut grow, &carry);
        }
        assert forall|g: int| 0 <= g < gap_count implies (carry@[g] <==>
                exists|k: int| 0 <= k < i + 1 && #[trigger] widened_gap(nodes@, gaps@, groups@, k, g)) by {
            assert(carry@[g] <==> (carry_before[g] || wrow@[g]));
            if exists|k: int| 0 <= k < i + 1 && #[trigger] widened_gap(nodes@, gaps@, groups@, k, g) {
                let k = choose|k: int| 0 <= k < i + 1 && #[trigger] widened_gap(nodes@, gaps@, groups@, k, g);
                if k < i {
                    assert(carry_before[g]);
                }
            }
            if wrow@[g] {
                assert(0 <= i < i + 1 && widened_gap(nodes@, gaps@, groups@, i as int, g));
            }
            if carry_before[g] {
                let k = choose|k: int| 0 <= k < i && #[trigger] widened_gap(nodes@, gaps@, groups@, k, g);
                assert(0 <= k < i + 1 && widened_gap(nodes@, gaps@, groups@, k, g));
            }
        }
        assert forall|g: int| 0 <= g < gap_count implies (grow@[g] <==> dep_gap(nodes@, gaps@, groups@, i as int, g)) by {
            if nodes@[i as int].hard@.len() == 0 {
                if dep_gap(nodes@, gaps@, groups@, i as int, g) {
                    let k = choose|k: int| 0 <= k <= i && #[trigger] widened_gap(nodes@, gaps@, groups@, k, g);
                    assert(0 <= k < i + 1 && widened_gap(nodes@, gaps@, groups@, k, g));
                }
                if carry@[g] {
                    let k = choose|k: int| 0 <= k < i + 1 && #[trigger] widened_gap(nodes@, gaps@, groups@, k, g);
                    assert(0 <= k <= i && widened_gap(nodes@, gaps@, groups@, k, g));
                }
            }
        }
        let ml = listed(&mrow);
        let gl = listed(&grow);
        proof {
            lemma_listed(mrow@, ml@, |x: int| dep_marker(nodes@, groups@, i as int, x));
            lemma_listed(grow@, gl@, |g: int| dep_gap(nodes@, gaps@, groups@, i as int, g));
        }
        node_rows.push(mrow);
        gap_rows.push(grow);
        node_markers.push(ml);
        node_gaps.push(gl);
        i = i + 1;
    }
    // Edge dependencies.
    let mut edge_markers: Vec<Vec<usize>> = Vec::new();
    let mut edge_gaps: Vec<Vec<usize>> = Vec::new();
    let mut k: usize = 0;
    while k < gaps.len()
        invariant
            n == nodes@.len(),
            k <= gaps@.len(),
            gaps@.len() + 1 == nodes@.len(),
            gaps_below(gaps@, gap_count as int),
            node_rows@.len() == n,
            gap_rows@.len() == n,
            forall|j: int| 0 <= j < n ==> (#[trigger] node_rows@[j])@.len() == marker_count,
            forall|j: int, x: int| 0 <= j < n && 0 <= x < marker_count ==> (#[trigger] node_rows@[j]@[x] <==> dep_marker(nodes@, groups@, j, x)),
            forall|j: int| 0 <= j < n ==> (#[trigger] gap_rows@[j])@.len() == gap_count,
            forall|j: int, g: int| 0 <= j < n && 0 <= g < gap_count ==> (#[trigger] gap_rows@[j]@[g] <==> dep_gap(nodes@, gaps@, groups@, j, g)),
            edge_markers@.len() == k,
            edge_gaps@.len() == k,
            forall|j: int| 0 <= j < k ==> lists(#[trigger] edge_markers@[j]@, marker_count as int,
                |x: int| edge_dep_marker(nodes@, groups@, j, x)),
            forall|j: int| 0 <= j < k ==> lists(#[trigger] edge_gaps@[j]@, gap_count as int,
                |g: int| edge_dep_gap(nodes@, gaps@, groups@, j, g)),
        decreases gaps@.len() - k,
    {
        let mut mrow = all_false(marker_count);
        or_into(&mut mrow, &node_rows[k]);
        or_into(&mut mrow, &node_rows[k + 1]);
        let mut grow = all_false(gap_count);
        or_into(&mut grow, &gap_rows[k]);
        or_into(&mut grow, &gap_rows[k + 1]);
        let ghost before = grow@;
        match gaps[k] {
            Some(gk) => {
                assert(gaps@[k as int] matches Some(h) ==> h < gap_count);
                grow.set(gk, true);
            }
            None => {}
        }
        assert forall|x: int| 0 <= x < marker_count implies (mrow@[x] <==> edge_dep_marker(nodes@, groups@, k as int, x)) by {
            assert(node_rows@[k as int]@[x] <==> dep_marker(nodes@, groups@, k as int, x));
            assert(node_rows@[k + 1]@[x] <==> dep_marker(nodes@, groups@, k + 1, x));
        }
        assert forall|g: int| 0 <= g < gap_count implies (grow@[g] <==> edge_dep_gap(nodes@, gaps@, groups@, k as int, g)) by {
            assert(gap_rows@[k as int]@[g] <==> dep_gap(nodes@, gaps@, groups@, k as int, g));
            assert(gap_rows@[k + 1]@[g] <==> dep_gap(nodes@, gaps@, groups@, k + 1, g));
            assert((g as usize) as int == g);
        }
        let ml = listed(&mrow);
        let gl = listed(&grow);
        proof {
            lemma_listed(mrow@, ml@, |x: int| edge_dep_marker(nodes@, groups@, k as int, x));
            lemma_listed(grow@, gl@, |g: int| edge_dep_gap(nodes@, gaps@, groups@, k as int, g));
        }
        edge_markers.push(ml);
        edge_gaps.push(gl);
        k = k + 1;
    }
    Dependencies { node_markers, node_gaps, edge_markers, edge_gaps }
}


/// Gap lower bounds propagate downwards: a node without hard markers depends
/// on every gap that any node above it depends on.
pub proof fn lemma_gap_dependency_propagates(
    nodes: Seq<NodeKeys>,
    gaps: Seq<Option<usize>>,
    groups: Seq<Vec<usize>>,
    i: int,
    j: int,
    g: int,
)
    requires
        0 <= i <= j < nodes.len(),
        nodes[j].hard@.len() == 0,
        dep_gap(nodes, gaps, groups, i, g),
    ensures
        dep_gap(nodes, gaps, groups, j, g),
{
    if nodes[i].hard@.len() > 0 {
        assert(0 <= i <= j && widened_gap(nodes, gaps, groups, i, g));
    } else {
        let k = choose|k: int| 0 <= k <= i && #[trigger] widened_gap(nodes, gaps, groups, k, g);
        assert(0 <= k <= j && widened_gap(nodes, gaps, groups, k, g));
    }
}

/// A node depends on every marker it carries, and an edge depends on the gap it crosses.
pub proof fn lemma_own_dependencies(nodes: Seq<NodeKeys>, gaps: Seq<Option<usize>>, groups: Seq<Vec<usize>>, i: int, x: int)
    requires 0 <= i < nodes.len(), owns(nodes, i, x),
    ensures
        dep_marker(nodes, groups, i, x),
        i < gaps.len() ==> (gaps[i] matches Some(g) ==> edge_dep_gap(nodes, gaps, groups, i, g as int)),
{
}

}
