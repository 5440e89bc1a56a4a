//! Export and verified re-import of run records: the bundle header check and
//! the verdicts of replaying each immutable run.

use vstd::prelude::*;
use crate::model::SOLVER_VERSION;
use crate::text::{padded, push_padded};
use vstd::string::StringExecFns;

verus! {

/// The outcome of replaying one stored run.
#[derive(Clone, Debug)]
pub struct VerifyItem {
    pub seq: i64,
    pub ok: bool,
    pub detail: String,
}

/// The outcome of a verified import.
#[derive(Clone, Debug)]
pub struct VerifyReport {
    pub imported_runs: usize,
    pub items: Vec<VerifyItem>,
    pub all_ok: bool,
}

/// Decimal text of `v`.
pub open spec fn dec(v: int) -> Seq<char> {
    padded(v, 0)
}

pub open spec fn header_error(format: Seq<char>, solver_version: u32) -> Option<Seq<char>> {
    if format != "han-ceng-nian-chi/bundle.v1"@ {
        Some("不支持的导出格式: "@ + format)
    } else if solver_version != SOLVER_VERSION {
        Some("求解器版本不匹配：导出 v"@ + dec(solver_version as int) + "，当前 v"@ + dec(SOLVER_VERSION as int))
    } else {
        None
    }
}

/// Accepts only bundles of this format written by this solver version.
pub fn check_bundle_header(format: &String, solver_version: u32) -> (r: Result<(), String>)
    ensures
        match r {
            Ok(()) => header_error(format@, solver_version) is None,
            Err(e) => header_error(format@, solver_version) == Some(e@),
        },
{
    if *format != String::from_str("han-ceng-nian-chi/bundle.v1") {
        let mut msg = String::from_str("不支持的导出格式: ");
        msg.append(format.as_str());
        return Err(msg);
    }
    if solver_version != SOLVER_VERSION {
        let mut msg = String::from_str("求解器版本不匹配：导出 v");
        push_padded(&mut msg, solver_version as i64, 0);
        msg.append("，当前 v");
        push_padded(&mut msg, SOLVER_VERSION as i64, 0);
        return Err(msg);
    }
    Ok(())
}

/// A stored run whose status reads `feasible` was feasible when recorded.
pub fn recorded_as_feasible(status: &String) -> (r: bool)
    ensures r == (status@ == "feasible"@),
{
    *status == String::from_str("feasible")
}

/// Which check a stored run gets when it is replayed.
#[derive(Clone, Copy, Debug, PartialEq, Eq, Structural)]
pub enum RunCheck {
    /// The replay's feasibility differs from the record's status.
    Feasibility,
    /// Both rejected: the minimum conflict sets are compared.
    Conflict,
    /// Both feasible: the quantiles are compared bit for bit.
    Quantiles,
}

/// The check a stored run with `status` gets, given whether its replay was feasible.
pub fn run_check(status: &String, fresh_feasible: bool) -> (c: RunCheck)
    ensures
        c == if fresh_feasible != (status@ == "feasible"@) {
            RunCheck::Feasibility
        } else if !fresh_feasible {
            RunCheck::Conflict
        } else {
            RunCheck::Quantiles
        },
{
    if fresh_feasible != recorded_as_feasible(status) {
        RunCheck::Feasibility
    } else if !fresh_feasible {
        RunCheck::Conflict
    } else {
        RunCheck::Quantiles
    }
}

/// The replay disagrees with the record on feasibility.
pub fn feasibility_mismatch(seq: i64, status: &String) -> (item: VerifyItem)
    ensures
        item.seq == seq,
        !item.ok,
        item.detail@ == "可行性与记录不一致（记录 "@ + status@ + "）"@,
{
    let mut detail = String::from_str("可行性与记录不一致（记录 ");
    detail.append(status.as_str());
    detail.append("）");
    VerifyItem { seq, ok: false, detail }
}

/// A rejected run: its replayed minimum conflict set agrees with the record or not.
pub fn conflict_check(seq: i64, same: bool) -> (item: VerifyItem)
    ensures
        item.seq == seq,
        item.ok == same,
        item.detail@ == if same { "最小冲突集与记录一致"@ } else { "最小冲突集与记录不一致"@ },
{
    let detail = if same { String::from_str("最小冲突集与记录一致") } else { String::from_str("最小冲突集与记录不一致") };
    VerifyItem { seq, ok: same, detail }
}

/// A feasible run: its replayed quantiles agree bit for bit with the record or not;
/// `relative` gives, when a previous feasible run was replayed, its sequence
/// number and the reused and invalidated node counts relative to it.
pub fn replay_check(seq: i64, same: bool, relative: Option<(i64, usize, usize)>) -> (item: VerifyItem)
    requires
        relative matches Some(r) ==> r.1 <= i64::MAX && r.2 <= i64::MAX,
    ensures
        item.seq == seq,
        item.ok == same,
        item.detail@ == if !same {
            "分位数与记录不一致（重放不可复现）"@
        } else {
            match relative {
                None => "分位数逐位一致"@,
                Some(r) => "分位数逐位一致"@ + "；相对 #"@ + dec(r.0 as int) + " 复用 "@ + dec(r.1 as int) + " 节点 / 失效 "@
                    + dec(r.2 as int) + " 节点"@,
            }
        },
{
    if !same {
        return VerifyItem { seq, ok: false, detail: String::from_str("分位数与记录不一致（重放不可复现）") };
    }
    let mut detail = String::from_str("分位数逐位一致");
    match relative {
        None => {}
        Some((base_seq, reused, invalidated)) => {
            detail.append("；相对 #");
            push_padded(&mut detail, base_seq, 0);
            detail.append(" 复用 ");
            push_padded(&mut detail, reused as i64, 0);
            detail.append(" 节点 / 失效 ");
            push_padded(&mut detail, invalidated as i64, 0);
            detail.append(" 节点");
        }
    }
    VerifyItem { seq, ok: true, detail }
}

/// A node row as `(depth, q05, median, q95)` and an edge row as
/// `(depth_from, depth_to, rate_median)`, all binary64 bit patterns.
pub open spec fn node_agrees(a: (u64, u64, u64, u64), b: (u64, u64, u64, u64)) -> bool {
    a.0 == b.0 && a.1 == b.1 && a.2 == b.2 && a.3 == b.3
}

pub open spec fn edge_agrees(a: (u64, u64, u64), b: (u64, u64, u64)) -> bool {
    a.0 == b.0 && a.1 == b.1 && a.2 == b.2
}

/// The replay reproduces every stored row: as many node rows and edge rows
/// as stored, each equal to its stored row in every compared value.
pub open spec fn replay_reproduces(
    fresh_nodes: Seq<(u64, u64, u64, u64)>,
    stored_nodes: Seq<(u64, u64, u64, u64)>,
    fresh_edges: Seq<(u64, u64, u64)>,
    stored_edges: Seq<(u64, u64, u64)>,
) -> bool {
    &&& fresh_nodes.len() == stored_nodes.len()
    &&& forall|i: int| 0 <= i < fresh_nodes.len() ==> node_agrees(#[trigger] fresh_nodes[i], stored_nodes[i])
    &&& fresh_edges.len() == stored_edges.len()
    &&& forall|i: int| 0 <= i < fresh_edges.len() ==> edge_agrees(#[trigger] fresh_edges[i], stored_edges[i])
}

/// Whether a replayed run reproduces its stored quantiles bit for bit.
pub fn replay_agrees(
    fresh_nodes: &Vec<(u64, u64, u64, u64)>,
    stored_nodes: &Vec<(u64, u64, u64, u64)>,
    fresh_edges: &Vec<(u64, u64, u64)>,
    stored_edges: &Vec<(u64, u64, u64)>,
) -> (r: bool)
    ensures r == replay_reproduces(fresh_nodes@, stored_nodes@, fresh_edges@, stored_edges@),
{
    if fresh_nodes.len() != stored_nodes.len() || fresh_edges.len() != stored_edges.len() {
        return false;
    }
    let mut i: usize = 0;
    while i < fresh_nodes.len()
        invariant
            i <= fresh_nodes@.len(),
            fresh_nodes@.len() == stored_nodes@.len(),
            forall|k: int| 0 <= k < i ==> node_agrees(#[trigger] fresh_nodes@[k], stored_nodes@[k]),
        decreases fresh_nodes@.len() - i,
    {
        let a = fresh_nodes[i];
        let b = stored_nodes[i];
        if !(a.0 == b.0 && a.1 == b.1 && a.2 == b.2 && a.3 == b.3) {
            assert(!node_agrees(fresh_nodes@[i as int], stored_nodes@[i as int]));
            return false;
        }
        i = i + 1;
    }
    let mut j: usize = 0;
    while j < fresh_edges.len()
        invariant
            j <= fresh_edges@.len(),
            fresh_edges@.len() == stored_edges@.len(),
            forall|k: int| 0 <= k < j ==> edge_agrees(#[trigger] fresh_edges@[k], stored_edges@[k]),
        decreases fresh_edges@.len() - j,
    {
        let a = fresh_edges[j];
        let b = stored_edges[j];
        if !(a.0 == b.0 && a.1 == b.1 && a.2 == b.2) {
            assert(!edge_agrees(fresh_edges@[j as int], stored_edges@[j as int]));
            return false;
        }
        j = j + 1;
    }
    true
}

/// Every replay agreed with its record.
pub open spec fn all_agree(items: Seq<VerifyItem>) -> bool {
    forall|i: int| 0 <= i < items.len() ==> #[trigger] items[i].ok
}

/// The import goes ahead only when every replay agreed with its record.
pub fn conclude(imported_runs: usize, items: Vec<VerifyItem>) -> (r: Result<VerifyReport, String>)
    ensures
        r is Ok <==> all_agree(items@),
        r matches Ok(report) ==> report.imported_runs == imported_runs && report.items@ == items@ && report.all_ok,
        r matches Err(e) ==> e@ == "重放复核失败，已拒绝导入（数据库未改动）"@,
{
    let mut i: usize = 0;
    while i < items.len()
        invariant
            i <= items@.len(),
            forall|k: int| 0 <= k < i ==> #[trigger] items@[k].ok,
        decreases items@.len() - i,
    {
        if !items[i].ok {
            return Err(String::from_str("重放复核失败，已拒绝导入（数据库未改动）"));
        }
        i = i + 1;
    }
    Ok(VerifyReport { imported_runs, items, all_ok: true })
}

}
