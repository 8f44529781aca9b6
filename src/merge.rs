//! The join of swap, accelerator and topology records by process id.
use std::collections::HashMap;
use vstd::prelude::*;
use vstd::std_specs::iter::IteratorSpec;

use crate::rank::{rank_by, total_kb, stable_reorder, ranked, precedes, RankKey};
use crate::types::{
    GpuProcessInfo, NumaNode, NumaNodeType, ProcessLocation, ProcessNumaInfo, ProcessSwapInfo,
    UnifiedProcessInfo,
};

verus! {

broadcast use vstd::std_specs::hash::group_hash_axioms;

/// `k` holds the most pages of `m`, and no smaller node holds as many.
pub open spec fn is_dominant(m: Map<u32, u64>, k: u32) -> bool {
    &&& m.contains_key(k)
    &&& forall|j: u32| #[trigger] m.contains_key(j) ==> m[j] < m[k] || (m[j] == m[k] && k <= j)
}

/// The node holding the most pages, the smallest such node on a tie.
pub open spec fn dominant(m: Map<u32, u64>) -> Option<u32> {
    if exists|k: u32| is_dominant(m, k) {
        Some(choose|k: u32| is_dominant(m, k))
    } else {
        None
    }
}

pub proof fn lemma_dominant_unique(m: Map<u32, u64>, a: u32, b: u32)
    requires
        is_dominant(m, a),
        is_dominant(m, b),
    ensures
        a == b,
{
    assert(m.contains_key(a) && m.contains_key(b));
}

/// The node of `m` that holds the most pages; the smallest node id wins
/// a tie. `None` for a process with no pages.
pub fn dominant_node(m: &HashMap<u32, u64>) -> (r: Option<u32>)
    ensures
        r == dominant(m@),
        r.is_none() <==> m@.dom().len() == 0,
{
    let mut best: Option<(u32, u64)> = None;
    for kv in it: m.iter()
        invariant
            it.seq() == vstd::std_specs::hash::spec_hash_map_iter(m).remaining(),
            best.is_none() <==> it.index() == 0,
            match best {
                Some((bk, bv)) => m@.contains_key(bk) && m@[bk] == bv && forall|q: int|
                    0 <= q < it.index() ==> (*it.seq()[q].1 < bv || (*it.seq()[q].1 == bv && bk
                        <= *it.seq()[q].0)),
                None => true,
            },
    {
        let (k, v) = kv;
        match best {
            None => {
                best = Some((*k, *v));
            },
            Some((bk, bv)) => {
                if *v > bv || (*v == bv && *k < bk) {
                    best = Some((*k, *v));
                }
            },
        }
    }
    let ghost sq = vstd::std_specs::hash::spec_hash_map_iter(m).remaining();
    match best {
        Some((bk, bv)) => {
            assert forall|j: u32| #[trigger] m@.contains_key(j) implies m@[j] < bv || (m@[j] == bv
                && bk <= j) by {
                assert(sq.contains((&j, &m@[j])));
                let q = choose|q: int| 0 <= q < sq.len() && sq[q] == (&j, &m@[j]);
            }
            assert(is_dominant(m@, bk));
            proof {
                lemma_dominant_unique(m@, bk, choose|k: u32| is_dominant(m@, k));
            }
            Some(bk)
        },
        None => {
            assert forall|k: u32| !is_dominant(m@, k) by {
                if m@.contains_key(k) {
                    assert(sq.contains((&k, &m@[k])));
                }
            }
            None
        },
    }
}


/// The last position below `n` of `pid` in `ps`, or `-1`.
pub open spec fn last_of(ps: Seq<u32>, pid: u32, n: int) -> int
    decreases n,
{
    if n <= 0 {
        -1
    } else if ps[n - 1] == pid {
        n - 1
    } else {
        last_of(ps, pid, n - 1)
    }
}

/// The first position below `n` of `pid` in `ps`, or `-1`.
pub open spec fn first_of(ps: Seq<u32>, pid: u32, n: int) -> int
    decreases n,
{
    if n <= 0 {
        -1
    } else if first_of(ps, pid, n - 1) >= 0 {
        first_of(ps, pid, n - 1)
    } else if ps[n - 1] == pid {
        n - 1
    } else {
        -1
    }
}

pub proof fn lemma_last_of(ps: Seq<u32>, pid: u32, n: int)
    requires
        0 <= n <= ps.len(),
    ensures
        -1 <= last_of(ps, pid, n) < n,
        last_of(ps, pid, n) >= 0 ==> ps[last_of(ps, pid, n)] == pid,
        forall|k: int| last_of(ps, pid, n) < k < n ==> ps[k] != pid,
    decreases n,
{
    if n > 0 {
        lemma_last_of(ps, pid, n - 1);
    }
}

pub proof fn lemma_first_of(ps: Seq<u32>, pid: u32, n: int)
    requires
        0 <= n <= ps.len(),
    ensures
        -1 <= first_of(ps, pid, n) < n,
        first_of(ps, pid, n) >= 0 ==> ps[first_of(ps, pid, n)] == pid,
        forall|k: int|
            0 <= k < n && (first_of(ps, pid, n) < 0 || k < first_of(ps, pid, n)) ==> ps[k] != pid,
        (first_of(ps, pid, n) < 0) == (last_of(ps, pid, n) < 0),
    decreases n,
{
    if n > 0 {
        lemma_first_of(ps, pid, n - 1);
        lemma_last_of(ps, pid, n);
    }
}

/// Once found, the first position stays as the prefix grows.
pub proof fn lemma_first_of_stable(ps: Seq<u32>, pid: u32, n: int, m: int)
    requires
        0 <= n <= m,
        first_of(ps, pid, n) >= 0,
    ensures
        first_of(ps, pid, m) == first_of(ps, pid, n),
    decreases m - n,
{
    if m > n {
        lemma_first_of_stable(ps, pid, n, m - 1);
    }
}

pub open spec fn swap_pids(sw: Seq<ProcessSwapInfo>) -> Seq<u32> {
    sw.map_values(|p: ProcessSwapInfo| p.pid)
}

pub open spec fn gpu_pids(gp: Seq<GpuProcessInfo>) -> Seq<u32> {
    gp.map_values(|p: GpuProcessInfo| p.pid)
}

pub open spec fn info_pids(infos: Seq<ProcessNumaInfo>) -> Seq<u32> {
    infos.map_values(|p: ProcessNumaInfo| p.pid)
}

/// The dominant node of the first distribution of `pid`.
pub open spec fn swap_node(infos: Seq<ProcessNumaInfo>, pid: u32) -> Option<u32> {
    let f = first_of(info_pids(infos), pid, infos.len() as int);
    if f >= 0 {
        dominant(infos[f].pages_per_node@)
    } else {
        None
    }
}

/// `info` has pages on `node`, and `node` is memory of an accelerator.
pub open spec fn on_accelerator_memory(info: ProcessNumaInfo, node: NumaNode) -> bool {
    &&& node.node_type is GpuHbm
    &&& info.pages_per_node@.contains_key(node.id)
    &&& info.pages_per_node@[node.id] > 0
}

/// One of the first `ni` distributions of `pid` has pages on accelerator
/// memory.
pub open spec fn migrated(
    infos: Seq<ProcessNumaInfo>,
    nodes: Seq<NumaNode>,
    pid: u32,
    ni: int,
) -> bool {
    exists|k: int, j: int|
        0 <= k < ni && 0 <= j < nodes.len() && infos[k].pid == pid && on_accelerator_memory(
            #[trigger] infos[k],
            #[trigger] nodes[j],
        )
}

/// Placement from the first `ns` swap and `ng` accelerator records: a swap
/// record makes it CPU, and an accelerator record on top CPU and
/// accelerator. Without a swap record, one accelerator record makes it
/// accelerator-only; a second record of the same process finds it already
/// present and promotes it to CPU and accelerator.
pub open spec fn base_location(sp: Seq<u32>, gpp: Seq<u32>, pid: u32, ns: int, ng: int) -> ProcessLocation {
    if last_of(sp, pid, ns) >= 0 {
        if last_of(gpp, pid, ng) >= 0 {
            ProcessLocation::CpuAndGpu
        } else {
            ProcessLocation::CpuOnly
        }
    } else if first_of(gpp, pid, ng) == last_of(gpp, pid, ng) {
        ProcessLocation::GpuOnly
    } else {
        ProcessLocation::CpuAndGpu
    }
}

/// Placement after migration detection: a CPU-only process with pages on
/// accelerator memory counts as CPU and accelerator.
pub open spec fn location_of(
    sw: Seq<ProcessSwapInfo>,
    gp: Seq<GpuProcessInfo>,
    infos: Seq<ProcessNumaInfo>,
    nodes: Seq<NumaNode>,
    pid: u32,
    ns: int,
    ng: int,
    ni: int,
) -> ProcessLocation {
    let b = base_location(swap_pids(sw), gpu_pids(gp), pid, ns, ng);
    if b == ProcessLocation::CpuOnly && migrated(infos, nodes, pid, ni) {
        ProcessLocation::CpuAndGpu
    } else {
        b
    }
}

/// `r` is the joined record of its process, built from the first `ns`
/// swap records, `ng` accelerator records and `ni` distributions. The last
/// swap record and the last accelerator record of a process give its
/// fields; without a swap record the first accelerator record names it.
pub open spec fn record_fits(
    r: UnifiedProcessInfo,
    sw: Seq<ProcessSwapInfo>,
    gp: Seq<GpuProcessInfo>,
    infos: Seq<ProcessNumaInfo>,
    nodes: Seq<NumaNode>,
    ns: int,
    ng: int,
    ni: int,
) -> bool {
    let ls = last_of(swap_pids(sw), r.pid, ns);
    let lg = last_of(gpu_pids(gp), r.pid, ng);
    let fg = first_of(gpu_pids(gp), r.pid, ng);
    &&& ls >= 0 || lg >= 0
    &&& if ls >= 0 {
        &&& r.name@ == sw[ls].name@
        &&& r.swap_kb == sw[ls].swap_kb
        &&& r.numa_node == swap_node(infos, r.pid)
    } else {
        &&& r.name@ == gp[fg].name@
        &&& r.swap_kb == 0
        &&& r.numa_node is None
    }
    &&& r.gpu_memory_kb == if lg >= 0 {
        Some(gp[lg].gpu_memory_used_kb)
    } else {
        None
    }
    &&& r.gpu_index == if lg >= 0 {
        Some(gp[lg].gpu_index)
    } else {
        None
    }
    &&& r.location == location_of(sw, gp, infos, nodes, r.pid, ns, ng, ni)
}

/// Where `pid` first appears: its first swap record, or else its first
/// accelerator record counted after all swap records.
pub open spec fn first_seen(
    sw: Seq<ProcessSwapInfo>,
    gp: Seq<GpuProcessInfo>,
    pid: u32,
    ns: int,
    ng: int,
) -> int {
    let f = first_of(swap_pids(sw), pid, ns);
    if f >= 0 {
        f
    } else {
        sw.len() + first_of(gpu_pids(gp), pid, ng)
    }
}

/// The process ids of the joined records.
pub open spec fn has_pid(v: Seq<UnifiedProcessInfo>, pid: u32) -> bool {
    exists|i: int| 0 <= i < v.len() && v[i].pid == pid
}

pub open spec fn distinct_pids(v: Seq<UnifiedProcessInfo>) -> bool {
    forall|i: int, j: int| 0 <= i < j < v.len() ==> v[i].pid != v[j].pid
}

/// The position of `pid` among the records, if present.
fn position_of(v: &Vec<UnifiedProcessInfo>, pid: u32) -> (r: Option<usize>)
    ensures
        match r {
            Some(i) => i < v.len() && v@[i as int].pid == pid,
            None => !has_pid(v@, pid),
        },
{
    let mut i: usize = 0;
    while i < v.len()
        invariant
            i <= v.len(),
            forall|k: int| 0 <= k < i ==> v@[k].pid != pid,
        decreases v.len() - i,
    {
        if v[i].pid == pid {
            return Some(i);
        }
        i += 1;
    }
    None
}

/// The node that holds most pages of the first distribution of `pid`.
fn swap_node_exec(infos: &[ProcessNumaInfo], pid: u32) -> (r: Option<u32>)
    ensures
        r == swap_node(infos@, pid),
{
    let ghost ip = info_pids(infos@);
    proof {
        lemma_first_of(ip, pid, infos@.len() as int);
    }
    assert(forall|k: int| 0 <= k < infos@.len() ==> #[trigger] ip[k] == infos@[k].pid);
    let mut i: usize = 0;
    while i < infos.len()
        invariant
            i <= infos@.len(),
            ip == info_pids(infos@),
            ip.len() == infos@.len(),
            forall|k: int| 0 <= k < infos@.len() ==> #[trigger] ip[k] == infos@[k].pid,
            forall|k: int| 0 <= k < i ==> infos@[k].pid != pid,
        decreases infos.len() - i,
    {
        if infos[i].pid == pid {
            proof {
                lemma_first_of(ip, pid, infos@.len() as int);
                let f = first_of(ip, pid, infos@.len() as int);
                assert(ip[i as int] == pid);
                if f < 0 || f > i {
                } else if f < i {
                    assert(ip[f] == pid);
                }
            }
            return dominant_node(&infos[i].pages_per_node);
        }
        i += 1;
    }
    proof {
        lemma_first_of(ip, pid, infos@.len() as int);
        let f = first_of(ip, pid, infos@.len() as int);
        if f >= 0 {
            assert(ip[f] == pid);
        }
    }
    None
}

/// Whether `info` has pages on a node that is accelerator memory.
fn on_accelerator_memory_exec(info: &ProcessNumaInfo, nodes: &[NumaNode]) -> (r: bool)
    ensures
        r == exists|j: int| 0 <= j < nodes@.len() && on_accelerator_memory(*info, #[trigger] nodes@[j]),
{
    let mut j: usize = 0;
    while j < nodes.len()
        invariant
            j <= nodes@.len(),
            forall|k: int| 0 <= k < j ==> !on_accelerator_memory(*info, #[trigger] nodes@[k]),
        decreases nodes.len() - j,
    {
        let node = &nodes[j];
        match node.node_type {
            NumaNodeType::GpuHbm { .. } => {
                match info.pages_per_node.get(&node.id) {
                    Some(p) => {
                        if *p > 0 {
                            return true;
                        }
                    },
                    None => {},
                }
            },
            _ => {},
        }
        j += 1;
    }
    false
}


/// The records built so far from the first `ns` swap records, `ng`
/// accelerator records and `ni` distributions: one per process seen, in
/// the order processes were first seen.
pub open spec fn joined_so_far(
    acc: Seq<UnifiedProcessInfo>,
    sw: Seq<ProcessSwapInfo>,
    gp: Seq<GpuProcessInfo>,
    infos: Seq<ProcessNumaInfo>,
    nodes: Seq<NumaNode>,
    ns: int,
    ng: int,
    ni: int,
) -> bool {
    &&& distinct_pids(acc)
    &&& forall|pid: u32|
        #[trigger] has_pid(acc, pid) <==> (last_of(swap_pids(sw), pid, ns) >= 0 || last_of(
            gpu_pids(gp),
            pid,
            ng,
        ) >= 0)
    &&& forall|i: int|
        0 <= i < acc.len() ==> record_fits(#[trigger] acc[i], sw, gp, infos, nodes, ns, ng, ni)
    &&& forall|i: int, j: int|
        0 <= i < j < acc.len() ==> first_seen(sw, gp, acc[i].pid, ns, ng) < first_seen(
            sw,
            gp,
            acc[j].pid,
            ns,
            ng,
        )
}

/// `r` is the join of the swap records `sw`, accelerator records `gp` and
/// distributions `infos` over the topology `nodes`: one record per process
/// that has a swap or accelerator record, each as `record_fits` says,
/// largest first by swap plus accelerator memory, and in the order their
/// processes were first seen where that sum ties.
pub open spec fn joined(
    sw: Seq<ProcessSwapInfo>,
    gp: Seq<GpuProcessInfo>,
    infos: Seq<ProcessNumaInfo>,
    nodes: Seq<NumaNode>,
    r: Seq<UnifiedProcessInfo>,
) -> bool {
    &&& distinct_pids(r)
    &&& forall|pid: u32|
        #[trigger] has_pid(r, pid) <==> (exists|i: int| 0 <= i < sw.len() && sw[i].pid == pid) || (
        exists|i: int| 0 <= i < gp.len() && gp[i].pid == pid)
    &&& forall|i: int|
        0 <= i < r.len() ==> record_fits(
            #[trigger] r[i],
            sw,
            gp,
            infos,
            nodes,
            sw.len() as int,
            gp.len() as int,
            infos.len() as int,
        )
    &&& forall|i: int, j: int| 0 <= i < j < r.len() ==> total_kb(r[i]) >= total_kb(r[j])
    &&& forall|i: int, j: int|
        0 <= i < j < r.len() && total_kb(r[i]) == total_kb(r[j]) ==> first_seen(
            sw,
            gp,
            r[i].pid,
            sw.len() as int,
            gp.len() as int,
        ) < first_seen(sw, gp, r[j].pid, sw.len() as int, gp.len() as int)
}

/// Joins swap records, accelerator records and page distributions by
/// process id. Each process of a swap or accelerator record appears once;
/// its fields are those of `record_fits`. The records come largest first
/// by swap plus accelerator memory, and in the order their processes were
/// first seen where that sum ties.
pub fn merge_process_data(
    swap_procs: &[ProcessSwapInfo],
    gpu_procs: &[GpuProcessInfo],
    numa_infos: &[ProcessNumaInfo],
    numa_nodes: &[NumaNode],
) -> (r: Vec<UnifiedProcessInfo>)
    ensures
        joined(swap_procs@, gpu_procs@, numa_infos@, numa_nodes@, r@),
{
    let ghost sw = swap_procs@;
    let ghost gp = gpu_procs@;
    let ghost infos = numa_infos@;
    let ghost nodes = numa_nodes@;
    let ghost sp = swap_pids(sw);
    let ghost gpp = gpu_pids(gp);
    let ghost ns = sw.len() as int;
    let ghost ng = gp.len() as int;
    let ghost ni = infos.len() as int;
    assert(forall|k: int| 0 <= k < ns ==> #[trigger] sp[k] == sw[k].pid);
    assert(forall|k: int| 0 <= k < ng ==> #[trigger] gpp[k] == gp[k].pid);
    let mut acc: Vec<UnifiedProcessInfo> = Vec::new();
    let mut i: usize = 0;
    while i < swap_procs.len()
        invariant
            i <= ns == sw.len() == sp.len(),
            sw == swap_procs@,
            sp == swap_pids(sw),
            gpp == gpu_pids(gp),
            infos == numa_infos@,
            forall|k: int| 0 <= k < ns ==> #[trigger] sp[k] == sw[k].pid,
            joined_so_far(acc@, sw, gp, infos, nodes, i as int, 0, 0),
        decreases swap_procs.len() - i,
    {
        let p = &swap_procs[i];
        let numa = swap_node_exec(numa_infos, p.pid);
        let rec = UnifiedProcessInfo {
            pid: p.pid,
            name: p.name.clone(),
            swap_kb: p.swap_kb,
            numa_node: numa,
            gpu_memory_kb: None,
            gpu_index: None,
            location: ProcessLocation::CpuOnly,
        };
        let ghost before = acc@;
        let pos = position_of(&acc, p.pid);
        proof {
            lemma_last_of(sp, p.pid, i as int);
            lemma_first_of(sp, p.pid, i as int);
        }
        match pos {
            Some(q) => {
                acc.set(q, rec);
            },
            None => {
                acc.push(rec);
            },
        }
        proof {
            let n = i as int;
            assert forall|a: int| 0 <= a < acc@.len() implies record_fits(
                #[trigger] acc@[a],
                sw,
                gp,
                infos,
                nodes,
                n + 1,
                0,
                0,
            ) by {
                if acc@[a].pid != p.pid {
                    assert(acc@[a] == before[a]);
                    assert(record_fits(before[a], sw, gp, infos, nodes, n, 0, 0));
                }
            }
            assert forall|pid: u32| #[trigger] has_pid(acc@, pid) <==> (last_of(sp, pid, n + 1) >= 0
                || last_of(gpp, pid, 0) >= 0) by {
                if pid != p.pid {
                    if has_pid(acc@, pid) {
                        let a = choose|a: int| 0 <= a < acc@.len() && acc@[a].pid == pid;
                        if a < before.len() {
                            assert(before[a].pid == pid);
                        }
                    }
                    if has_pid(before, pid) {
                        let a = choose|a: int| 0 <= a < before.len() && before[a].pid == pid;
                        assert(acc@[a].pid == pid);
                    }
                } else {
                    match pos {
                        Some(q) => assert(acc@[q as int].pid == pid),
                        None => assert(acc@[before.len() as int].pid == pid),
                    }
                }
            }
            assert forall|a: int, b: int| 0 <= a < b < acc@.len() implies acc@[a].pid
                != acc@[b].pid by {
                if b < before.len() {
                    if acc@[a].pid == acc@[b].pid {
                        assert(before[a].pid == acc@[a].pid || a == pos.unwrap());
                    }
                }
            }
            assert forall|a: int, b: int| 0 <= a < b < acc@.len() implies first_seen(
                sw,
                gp,
                acc@[a].pid,
                n + 1,
                0,
            ) < first_seen(sw, gp, acc@[b].pid, n + 1, 0) by {
                let qa = acc@[a].pid;
                let qb = acc@[b].pid;
                assert(has_pid(before, qa) || qa == p.pid);
                if a < before.len() {
                    assert(has_pid(before, before[a].pid));
                    lemma_first_of(sp, before[a].pid, n);
                    lemma_first_of_stable(sp, before[a].pid, n, n + 1);
                }
                if b < before.len() {
                    assert(has_pid(before, before[b].pid));
                    lemma_first_of(sp, before[b].pid, n);
                    lemma_first_of_stable(sp, before[b].pid, n, n + 1);
                } else {
                    lemma_first_of(sp, before[a].pid, n);
                }
            }
        }
        i += 1;
    }
    let mut j: usize = 0;
    while j < gpu_procs.len()
        invariant
            j <= ng == gp.len() == gpp.len(),
            ns == sw.len() == sp.len(),
            sw == swap_procs@,
            gp == gpu_procs@,
            sp == swap_pids(sw),
            gpp == gpu_pids(gp),
            infos == numa_infos@,
            forall|k: int| 0 <= k < ns ==> #[trigger] sp[k] == sw[k].pid,
            forall|k: int| 0 <= k < ng ==> #[trigger] gpp[k] == gp[k].pid,
            joined_so_far(acc@, sw, gp, infos, nodes, ns, j as int, 0),
        decreases gpu_procs.len() - j,
    {
        let g = &gpu_procs[j];
        let ghost before = acc@;
        let pos = position_of(&acc, g.pid);
        proof {
            lemma_last_of(gpp, g.pid, j as int);
            lemma_first_of(gpp, g.pid, j as int);
            lemma_last_of(sp, g.pid, ns);
        }
        match pos {
            Some(q) => {
                let rec = UnifiedProcessInfo {
                    pid: acc[q].pid,
                    name: acc[q].name.clone(),
                    swap_kb: acc[q].swap_kb,
                    numa_node: acc[q].numa_node,
                    gpu_memory_kb: Some(g.gpu_memory_used_kb),
                    gpu_index: Some(g.gpu_index),
                    location: ProcessLocation::CpuAndGpu,
                };
                proof {
                    assert(record_fits(before[q as int], sw, gp, infos, nodes, ns, j as int, 0));
                    if last_of(sp, g.pid, ns) < 0 {
                        lemma_first_of_stable(gpp, g.pid, j as int, j + 1);
                    }
                }
                acc.set(q, rec);
            },
            None => {
                let rec = UnifiedProcessInfo {
                    pid: g.pid,
                    name: g.name.clone(),
                    swap_kb: 0,
                    numa_node: None,
                    gpu_memory_kb: Some(g.gpu_memory_used_kb),
                    gpu_index: Some(g.gpu_index),
                    location: ProcessLocation::GpuOnly,
                };
                acc.push(rec);
            },
        }
        proof {
            let n = j as int;
            assert forall|a: int| 0 <= a < acc@.len() implies record_fits(
                #[trigger] acc@[a],
                sw,
                gp,
                infos,
                nodes,
                ns,
                n + 1,
                0,
            ) by {
                if acc@[a].pid != g.pid {
                    assert(acc@[a] == before[a]);
                    assert(record_fits(before[a], sw, gp, infos, nodes, ns, n, 0));
                    let pa = acc@[a].pid;
                    if last_of(sp, pa, ns) < 0 {
                        lemma_last_of(gpp, pa, n);
                        lemma_first_of(gpp, pa, n);
                        lemma_first_of_stable(gpp, pa, n, n + 1);
                    }
                }
            }
            assert forall|pid: u32| #[trigger] has_pid(acc@, pid) <==> (last_of(sp, pid, ns) >= 0
                || last_of(gpp, pid, n + 1) >= 0) by {
                if pid != g.pid {
                    if has_pid(acc@, pid) {
                        let a = choose|a: int| 0 <= a < acc@.len() && acc@[a].pid == pid;
                        if a < before.len() {
                            assert(before[a].pid == pid);
                        }
                    }
                    if has_pid(before, pid) {
                        let a = choose|a: int| 0 <= a < before.len() && before[a].pid == pid;
                        assert(acc@[a].pid == pid);
                    }
                } else {
                    match pos {
                        Some(q) => assert(acc@[q as int].pid == pid),
                        None => assert(acc@[before.len() as int].pid == pid),
                    }
                }
            }
            assert forall|a: int, b: int| 0 <= a < b < acc@.len() implies acc@[a].pid
                != acc@[b].pid by {
                if b < before.len() {
                    if acc@[a].pid == acc@[b].pid {
                        assert(before[a].pid == acc@[a].pid || a == pos.unwrap());
                    }
                }
            }
            assert forall|a: int, b: int| 0 <= a < b < acc@.len() implies first_seen(
                sw,
                gp,
                acc@[a].pid,
                ns,
                n + 1,
            ) < first_seen(sw, gp, acc@[b].pid, ns, n + 1) by {
                let qa = before[a].pid;
                assert(has_pid(before, qa));
                lemma_first_of(sp, qa, ns);
                lemma_last_of(sp, qa, ns);
                lemma_first_of(gpp, qa, n);
                if last_of(sp, qa, ns) < 0 {
                    lemma_first_of_stable(gpp, qa, n, n + 1);
                }
                if b < before.len() {
                    let qb = before[b].pid;
                    assert(has_pid(before, qb));
                    lemma_first_of(sp, qb, ns);
                    lemma_last_of(sp, qb, ns);
                    lemma_first_of(gpp, qb, n);
                    if last_of(sp, qb, ns) < 0 {
                        lemma_first_of_stable(gpp, qb, n, n + 1);
                    }
                } else {
                    assert(!has_pid(before, g.pid));
                    lemma_first_of(sp, g.pid, ns);
                    lemma_first_of(gpp, g.pid, n);
                    assert(first_of(gpp, g.pid, n + 1) == n);
                }
            }
        }
        j += 1;
    }
    let mut k: usize = 0;
    while k < numa_infos.len()
        invariant
            k <= ni == infos.len(),
            ng == gp.len() == gpp.len(),
            ns == sw.len() == sp.len(),
            sw == swap_procs@,
            gp == gpu_procs@,
            sp == swap_pids(sw),
            gpp == gpu_pids(gp),
            infos == numa_infos@,
            nodes == numa_nodes@,
            forall|k: int| 0 <= k < ns ==> #[trigger] sp[k] == sw[k].pid,
            forall|k: int| 0 <= k < ng ==> #[trigger] gpp[k] == gp[k].pid,
            joined_so_far(acc@, sw, gp, infos, nodes, ns, ng, k as int),
        decreases numa_infos.len() - k,
    {
        let info = &numa_infos[k];
        let ghost before = acc@;
        let pos = position_of(&acc, info.pid);
        match pos {
            Some(q) => {
                if acc[q].location == ProcessLocation::CpuOnly && on_accelerator_memory_exec(
                    info,
                    numa_nodes,
                ) {
                    let rec = UnifiedProcessInfo {
                        pid: acc[q].pid,
                        name: acc[q].name.clone(),
                        swap_kb: acc[q].swap_kb,
                        numa_node: acc[q].numa_node,
                        gpu_memory_kb: acc[q].gpu_memory_kb,
                        gpu_index: acc[q].gpu_index,
                        location: ProcessLocation::CpuAndGpu,
                    };
                    acc.set(q, rec);
                }
            },
            None => {},
        }
        proof {
            let n = k as int;
            assert forall|a: int| 0 <= a < acc@.len() implies record_fits(
                #[trigger] acc@[a],
                sw,
                gp,
                infos,
                nodes,
                ns,
                ng,
                n + 1,
            ) by {
                let pa = acc@[a].pid;
                assert(record_fits(before[a], sw, gp, infos, nodes, ns, ng, n));
                if migrated(infos, nodes, pa, n + 1) && !migrated(infos, nodes, pa, n) {
                    let (k1, j1) = choose|k1: int, j1: int|
                        0 <= k1 < n + 1 && 0 <= j1 < nodes.len() && infos[k1].pid == pa
                            && on_accelerator_memory(#[trigger] infos[k1], #[trigger] nodes[j1]);
                    assert(k1 == n);
                    assert(pa == info.pid);
                }
                if pa == info.pid && migrated(infos, nodes, pa, n) {
                    let (k1, j1) = choose|k1: int, j1: int|
                        0 <= k1 < n && 0 <= j1 < nodes.len() && infos[k1].pid == pa
                            && on_accelerator_memory(#[trigger] infos[k1], #[trigger] nodes[j1]);
                    assert(migrated(infos, nodes, pa, n + 1));
                }
                if pa == info.pid && exists|j1: int|
                    0 <= j1 < nodes.len() && on_accelerator_memory(infos[n], #[trigger] nodes[j1]) {
                    let j1 = choose|j1: int|
                        0 <= j1 < nodes.len() && on_accelerator_memory(infos[n], #[trigger] nodes[j1]);
                    assert(on_accelerator_memory(infos[n], nodes[j1]));
                    assert(migrated(infos, nodes, pa, n + 1));
                }
            }
            assert forall|pid: u32| #[trigger] has_pid(acc@, pid) <==> has_pid(before, pid) by {
                if has_pid(acc@, pid) {
                    let a = choose|a: int| 0 <= a < acc@.len() && acc@[a].pid == pid;
                    assert(before[a].pid == pid);
                }
                if has_pid(before, pid) {
                    let a = choose|a: int| 0 <= a < before.len() && before[a].pid == pid;
                    assert(acc@[a].pid == pid);
                }
            }
            assert forall|a: int| 0 <= a < acc@.len() implies #[trigger] acc@[a].pid == before[a].pid by {}
        }
        k += 1;
    }
    let ghost joined = acc@;
    let r = rank_by(acc, RankKey::Total);
    proof {
        let perm = choose|perm: Seq<int>| stable_reorder(joined, r@, perm, RankKey::Total);
        assert forall|i: int, j: int| 0 <= i < j < r@.len() implies r@[i].pid != r@[j].pid by {
            assert(r@[i] == joined[perm[i]]);
            assert(r@[j] == joined[perm[j]]);
            if perm[i] < perm[j] {
            } else {
            }
        }
        assert forall|pid: u32| #[trigger] has_pid(r@, pid) <==> has_pid(joined, pid) by {
            if has_pid(r@, pid) {
                let i = choose|i: int| 0 <= i < r@.len() && r@[i].pid == pid;
                assert(r@[i] == joined[perm[i]]);
            }
            if has_pid(joined, pid) {
                let t = choose|t: int| 0 <= t < joined.len() && joined[t].pid == pid;
                assert(crate::reorder::covers(perm, t));
                let i = choose|i: int| 0 <= i < perm.len() && perm[i] == t;
                assert(r@[i] == joined[perm[i]]);
            }
        }
        assert forall|pid: u32| #[trigger] has_pid(r@, pid) <==> (exists|i: int|
                0 <= i < swap_procs@.len() && swap_procs@[i].pid == pid) || (exists|i: int|
                0 <= i < gpu_procs@.len() && gpu_procs@[i].pid == pid) by {
            lemma_last_of(sp, pid, ns);
            lemma_last_of(gpp, pid, ng);
            if exists|i: int| 0 <= i < swap_procs@.len() && swap_procs@[i].pid == pid {
                let i = choose|i: int| 0 <= i < swap_procs@.len() && swap_procs@[i].pid == pid;
                assert(sp[i] == pid);
            }
            if exists|i: int| 0 <= i < gpu_procs@.len() && gpu_procs@[i].pid == pid {
                let i = choose|i: int| 0 <= i < gpu_procs@.len() && gpu_procs@[i].pid == pid;
                assert(gpp[i] == pid);
            }
            if last_of(sp, pid, ns) >= 0 {
                assert(swap_procs@[last_of(sp, pid, ns)].pid == pid);
            }
            if last_of(gpp, pid, ng) >= 0 {
                assert(gpu_procs@[last_of(gpp, pid, ng)].pid == pid);
            }
        }
        assert forall|i: int| 0 <= i < r@.len() implies record_fits(
            #[trigger] r@[i],
            sw,
            gp,
            infos,
            nodes,
            ns,
            ng,
            ni,
        ) by {
            assert(r@[i] == joined[perm[i]]);
        }
        assert forall|i: int, j: int| 0 <= i < j < r@.len() implies total_kb(r@[i]) >= total_kb(
            r@[j],
        ) by {
            assert(!precedes(r@[j], r@[i], RankKey::Total));
        }
        assert forall|i: int, j: int|
            0 <= i < j < r@.len() && total_kb(r@[i]) == total_kb(r@[j]) implies first_seen(
            sw,
            gp,
            r@[i].pid,
            ns,
            ng,
        ) < first_seen(sw, gp, r@[j].pid, ns, ng) by {
            assert(r@[i] == joined[perm[i]]);
            assert(r@[j] == joined[perm[j]]);
            assert(!precedes(r@[i], r@[j], RankKey::Total));
            assert(!precedes(r@[j], r@[i], RankKey::Total));
            assert(perm[i] < perm[j]);
        }
    }
    r
}


/// The join drops no process: where every distribution belongs to a
/// process with a swap or accelerator record, the processes of the joined
/// records are exactly those of the three inputs together.
pub proof fn lemma_join_is_total(
    sw: Seq<ProcessSwapInfo>,
    gp: Seq<GpuProcessInfo>,
    infos: Seq<ProcessNumaInfo>,
    nodes: Seq<NumaNode>,
    r: Seq<UnifiedProcessInfo>,
)
    requires
        joined(sw, gp, infos, nodes, r),
        forall|k: int|
            0 <= k < infos.len() ==> (exists|i: int| 0 <= i < sw.len() && sw[i].pid == #[trigger] infos[k].pid)
                || (exists|i: int| 0 <= i < gp.len() && gp[i].pid == infos[k].pid),
    ensures
        forall|pid: u32|
            #[trigger] has_pid(r, pid) <==> (exists|i: int| 0 <= i < sw.len() && sw[i].pid == pid)
                || (exists|i: int| 0 <= i < gp.len() && gp[i].pid == pid) || (exists|i: int|
                0 <= i < infos.len() && infos[i].pid == pid),
{
    assert forall|pid: u32| #[trigger] has_pid(r, pid) <==> (exists|i: int|
        0 <= i < sw.len() && sw[i].pid == pid) || (exists|i: int| 0 <= i < gp.len() && gp[i].pid == pid)
        || (exists|i: int| 0 <= i < infos.len() && infos[i].pid == pid) by {
        if exists|i: int| 0 <= i < infos.len() && infos[i].pid == pid {
            let k = choose|i: int| 0 <= i < infos.len() && infos[i].pid == pid;
            assert(infos[k].pid == pid);
        }
    }
}

/// A process without accelerator records whose pages lie in part on
/// accelerator memory is placed on CPU and accelerator.
pub proof fn lemma_migration_promotes(
    sw: Seq<ProcessSwapInfo>,
    gp: Seq<GpuProcessInfo>,
    infos: Seq<ProcessNumaInfo>,
    nodes: Seq<NumaNode>,
    r: Seq<UnifiedProcessInfo>,
    i: int,
    k: int,
    j: int,
)
    requires
        joined(sw, gp, infos, nodes, r),
        0 <= i < r.len(),
        forall|g: int| 0 <= g < gp.len() ==> gp[g].pid != r[i].pid,
        0 <= k < infos.len(),
        infos[k].pid == r[i].pid,
        0 <= j < nodes.len(),
        nodes[j].node_type is GpuHbm,
        infos[k].pages_per_node@.contains_key(nodes[j].id),
        infos[k].pages_per_node@[nodes[j].id] > 0,
    ensures
        r[i].location == ProcessLocation::CpuAndGpu,
{
    let pid = r[i].pid;
    assert(record_fits(r[i], sw, gp, infos, nodes, sw.len() as int, gp.len() as int, infos.len() as int));
    lemma_last_of(gpu_pids(gp), pid, gp.len() as int);
    let lg = last_of(gpu_pids(gp), pid, gp.len() as int);
    if lg >= 0 {
        assert(gpu_pids(gp)[lg] == gp[lg].pid);
    }
    assert(on_accelerator_memory(infos[k], nodes[j]));
    assert(migrated(infos, nodes, pid, infos.len() as int));
}

} // verus!
