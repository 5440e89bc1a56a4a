//! The members of a conflict: which hard markers and which gaps a chain of
//! violated bounds runs through.
//!
//! When the hard constraints cannot all hold, the longest-path search names
//! the bounds on its chain: the lower or upper bound of a node, or the
//! minimum increment of an edge. A node bound stands for every hard marker
//! at that node; an edge increment stands for the gap the edge crosses.

use vstd::prelude::*;
use crate::text::{insert_sorted, strictly_sorted, views};

verus! {

/// A bound on a chain of violated constraints.
#[derive(Clone, Copy, Debug, PartialEq, Eq, Structural)]
pub enum ConstraintTag {
    /// The lower bound of node `i`.
    Lo(usize),
    /// The upper bound of node `i`.
    Hi(usize),
    /// The minimum increment of the edge from node `k` to node `k + 1`.
    Edge(usize),
}

/// The members of a conflict, each list in increasing order without repeats.
#[derive(Debug)]
pub struct ConflictKeys {
    pub markers: Vec<String>,
    pub gaps: Vec<String>,
}

/// Every tag names a node or an edge that exists.
pub open spec fn tags_in_range(node_hard: Seq<Vec<String>>, edge_gaps: Seq<Option<String>>, tags: Seq<ConstraintTag>) -> bool {
    forall|t: int| 0 <= t < tags.len() ==> match #[trigger] tags[t] {
        ConstraintTag::Lo(i) => i < node_hard.len(),
        ConstraintTag::Hi(i) => i < node_hard.len(),
        ConstraintTag::Edge(k) => k < edge_gaps.len(),
    }
}

/// The node whose bound the tag names, if it names one.
pub open spec fn tag_node(tag: ConstraintTag) -> Option<usize> {
    match tag {
        ConstraintTag::Lo(i) => Some(i),
        ConstraintTag::Hi(i) => Some(i),
        ConstraintTag::Edge(_) => None,
    }
}

/// Marker `id` is the `m`-th hard marker at the node named by tag `t`.
pub open spec fn marker_at(node_hard: Seq<Vec<String>>, tags: Seq<ConstraintTag>, t: int, m: int, id: Seq<char>) -> bool {
    match tag_node(tags[t]) {
        Some(i) => 0 <= m < node_hard[i as int]@.len() && node_hard[i as int]@[m]@ == id,
        None => false,
    }
}

/// Gap `id` is crossed by the edge named by tag `t`.
pub open spec fn gap_at(edge_gaps: Seq<Option<String>>, tags: Seq<ConstraintTag>, t: int, id: Seq<char>) -> bool {
    match tags[t] {
        ConstraintTag::Edge(k) => match edge_gaps[k as int] {
            Some(g) => g@ == id,
            None => false,
        },
        _ => false,
    }
}

/// Marker `id` is a hard marker at a node named by one of the first `n` tags.
pub open spec fn named_marker(node_hard: Seq<Vec<String>>, tags: Seq<ConstraintTag>, n: int, id: Seq<char>) -> bool {
    exists|t: int, m: int| 0 <= t < n && #[trigger] marker_at(node_hard, tags, t, m, id)
}

/// Gap `id` is crossed by an edge named by one of the first `n` tags.
pub open spec fn named_gap(edge_gaps: Seq<Option<String>>, tags: Seq<ConstraintTag>, n: int, id: Seq<char>) -> bool {
    exists|t: int| 0 <= t < n && #[trigger] gap_at(edge_gaps, tags, t, id)
}

/// The hard markers and gaps named by `tags`: `node_hard[i]` lists the hard
/// markers at node `i`, `edge_gaps[k]` the gap crossed by edge `k`, if any.
pub fn conflict_keys(node_hard: &Vec<Vec<String>>, edge_gaps: &Vec<Option<String>>, tags: &Vec<ConstraintTag>) -> (r: ConflictKeys)
    requires
        tags_in_range(node_hard@, edge_gaps@, tags@),
    ensures
        strictly_sorted(views(r.markers@)),
        views(r.markers@).to_set() == Set::new(|id: Seq<char>| named_marker(node_hard@, tags@, tags@.len() as int, id)),
        strictly_sorted(views(r.gaps@)),
        views(r.gaps@).to_set() == Set::new(|id: Seq<char>| named_gap(edge_gaps@, tags@, tags@.len() as int, id)),
{
    let mut markers: Vec<String> = Vec::new();
    let mut gaps: Vec<String> = Vec::new();
    let mut t: usize = 0;
    proof {
        assert(views(markers@).to_set() =~= Set::new(|id: Seq<char>| named_marker(node_hard@, tags@, 0, id)));
        assert(views(gaps@).to_set() =~= Set::new(|id: Seq<char>| named_gap(edge_gaps@, tags@, 0, id)));
    }
    while t < tags.len()
        invariant
            t <= tags@.len(),
            tags_in_range(node_hard@, edge_gaps@, tags@),
            strictly_sorted(views(markers@)),
            views(markers@).to_set() == Set::new(|id: Seq<char>| named_marker(node_hard@, tags@, t as int, id)),
            strictly_sorted(views(gaps@)),
            views(gaps@).to_set() == Set::new(|id: Seq<char>| named_gap(edge_gaps@, tags@, t as int, id)),
        decreases tags@.len() - t,
    {
        let ghost ti = t as int;
        match tags[t] {
            ConstraintTag::Edge(k) => {
                let ghost before = views(gaps@).to_set();
                match &edge_gaps[k] {
                    Some(g) => {
                        insert_sorted(&mut gaps, g.clone());
                        assert(views(gaps@).to_set() == before.insert(g@));
                    }
                    None => {
                        assert(views(gaps@).to_set() == before);
                    }
                }
                proof {
                    assert(tags@[ti] == ConstraintTag::Edge(k));
                    assert forall|id: Seq<char>| views(gaps@).to_set().contains(id) <==> named_gap(edge_gaps@, tags@, ti + 1, id) by {
                        if named_gap(edge_gaps@, tags@, ti + 1, id) {
                            let w = choose|w: int| 0 <= w < ti + 1 && #[trigger] gap_at(edge_gaps@, tags@, w, id);
                            if w < ti {
                                assert(named_gap(edge_gaps@, tags@, ti, id));
                                assert(before.contains(id));
                            } else {
                                assert(gap_at(edge_gaps@, tags@, ti, id));
                            }
                        }
                        if views(gaps@).to_set().contains(id) && !before.contains(id) {
                            assert(gap_at(edge_gaps@, tags@, ti, id));
                        }
                        if before.contains(id) {
                            assert(named_gap(edge_gaps@, tags@, ti, id));
                            let w = choose|w: int| 0 <= w < ti && #[trigger] gap_at(edge_gaps@, tags@, w, id);
                            assert(gap_at(edge_gaps@, tags@, w, id));
                        }
                    }
                    assert(views(gaps@).to_set() =~= Set::new(|id: Seq<char>| named_gap(edge_gaps@, tags@, ti + 1, id)));
                    assert forall|id: Seq<char>| named_marker(node_hard@, tags@, ti + 1, id) <==> named_marker(node_hard@, tags@, ti, id) by {
                        if named_marker(node_hard@, tags@, ti + 1, id) {
                            let (w, m) = choose|w: int, m: int| 0 <= w < ti + 1 && #[trigger] marker_at(node_hard@, tags@, w, m, id);
                            assert(w != ti);
                        }
                    }
                    assert(Set::new(|id: Seq<char>| named_marker(node_hard@, tags@, ti, id))
                        =~= Set::new(|id: Seq<char>| named_marker(node_hard@, tags@, ti + 1, id)));
                }
            }
            ConstraintTag::Lo(i) | ConstraintTag::Hi(i) => {
                let row = &node_hard[i];
                let mut m: usize = 0;
                while m < row.len()
                    invariant
                        t < tags@.len(),
                        tag_node(tags@[ti]) == Some(i),
                        i < node_hard@.len(),
                        *row == node_hard@[i as int],
                        m <= row@.len(),
                        strictly_sorted(views(markers@)),
                        forall|id: Seq<char>| views(markers@).to_set().contains(id) <==>
                            (named_marker(node_hard@, tags@, ti, id) || exists|q: int| 0 <= q < m && #[trigger] row@[q]@ == id),
                    decreases row@.len() - m,
                {
                    let ghost before = views(markers@).to_set();
                    insert_sorted(&mut markers, row[m].clone());
                    proof {
                        assert forall|id: Seq<char>| views(markers@).to_set().contains(id) <==>
                            (named_marker(node_hard@, tags@, ti, id) || exists|q: int| 0 <= q < m + 1 && #[trigger] row@[q]@ == id) by {
                            if exists|q: int| 0 <= q < m + 1 && #[trigger] row@[q]@ == id {
                                let q = choose|q: int| 0 <= q < m + 1 && #[trigger] row@[q]@ == id;
                                if q < m { assert(before.contains(id)); }
                            }
                            if before.contains(id) && !named_marker(node_hard@, tags@, ti, id) {
                                let q = choose|q: int| 0 <= q < m && #[trigger] row@[q]@ == id;
                                assert(0 <= q < m + 1 && row@[q]@ == id);
                            }
                        }
                    }
                    m = m + 1;
                }
                proof {
                    assert forall|id: Seq<char>| views(markers@).to_set().contains(id) <==> named_marker(node_hard@, tags@, ti + 1, id) by {
                        if named_marker(node_hard@, tags@, ti + 1, id) {
                            let (w, q) = choose|w: int, q: int| 0 <= w < ti + 1 && #[trigger] marker_at(node_hard@, tags@, w, q, id);
                            if w < ti {
                                assert(named_marker(node_hard@, tags@, ti, id));
                            } else {
                                assert(row@[q]@ == id);
                            }
                        }
                        if views(markers@).to_set().contains(id) && !named_marker(node_hard@, tags@, ti, id) {
                            let q = choose|q: int| 0 <= q < m && #[trigger] row@[q]@ == id;
                            assert(marker_at(node_hard@, tags@, ti, q, id));
                        }
                        if named_marker(node_hard@, tags@, ti, id) {
                            let (w, q) = choose|w: int, q: int| 0 <= w < ti && #[trigger] marker_at(node_hard@, tags@, w, q, id);
                            assert(0 <= w < ti + 1);
                        }
                    }
                    assert(views(markers@).to_set() =~= Set::new(|id: Seq<char>| named_marker(node_hard@, tags@, ti + 1, id)));
                    assert forall|id: Seq<char>| named_gap(edge_gaps@, tags@, ti + 1, id) <==> named_gap(edge_gaps@, tags@, ti, id) by {
                        if named_gap(edge_gaps@, tags@, ti + 1, id) {
                            let w = choose|w: int| 0 <= w < ti + 1 && #[trigger] gap_at(edge_gaps@, tags@, w, id);
                            assert(w != ti);
                        }
                    }
                    assert(Set::new(|id: Seq<char>| named_gap(edge_gaps@, tags@, ti, id))
                        =~= Set::new(|id: Seq<char>| named_gap(edge_gaps@, tags@, ti + 1, id)));
                }
            }
        }
        t = t + 1;
    }
    ConflictKeys { markers, gaps }
}

}
