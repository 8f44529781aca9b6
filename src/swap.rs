//! Ordering and selection of swap records.
use vstd::prelude::*;

use crate::reorder::{
    covers, lemma_insert_sorted, lemma_permutes_from_start, permutes, permutes_from, sorted_by,
    stable_by,
};
use crate::types::ProcessSwapInfo;

verus! {

/// Larger swap first, as a relation.
pub open spec fn swap_order() -> spec_fn(ProcessSwapInfo, ProcessSwapInfo) -> bool {
    |a: ProcessSwapInfo, b: ProcessSwapInfo| a.swap_kb > b.swap_kb
}

/// `r` holds the records of `v`, each once, at positions `perm` of `v`,
/// and records with equal swap keep their order.
pub open spec fn swap_reorder(v: Seq<ProcessSwapInfo>, r: Seq<ProcessSwapInfo>, perm: Seq<int>) -> bool {
    permutes(v, r, perm) && stable_by(r, perm, swap_order())
}

/// Orders swap records largest first, keeping the order of equal ones.
pub fn sort_by_swap_desc(procs: Vec<ProcessSwapInfo>) -> (r: Vec<ProcessSwapInfo>)
    ensures
        forall|i: int, j: int| 0 <= i < j < r@.len() ==> r@[i].swap_kb >= r@[j].swap_kb,
        exists|perm: Seq<int>| #[trigger] swap_reorder(procs@, r@, perm),
{
    let ghost orig = procs@;
    let ghost prec = swap_order();
    let mut v = procs;
    let mut r: Vec<ProcessSwapInfo> = Vec::new();
    let ghost mut perm: Seq<int> = Seq::empty();
    while v.len() > 0
        invariant
            prec == swap_order(),
            v@ == orig.take(v.len() as int),
            permutes_from(orig, r@, perm, v.len() as int),
            sorted_by(r@, prec),
            stable_by(r@, perm, prec),
        decreases v.len(),
    {
        let x = v.pop().unwrap();
        let ghost m = v.len() as int;
        assert(v@ =~= orig.take(m));
        let mut p: usize = 0;
        while p < r.len() && r[p].swap_kb > x.swap_kb
            invariant
                p <= r.len(),
                forall|k: int| 0 <= k < p ==> (#[trigger] r@[k]).swap_kb > x.swap_kb,
            decreases r.len() - p,
        {
            p += 1;
        }
        proof {
            assert forall|q: int| p <= q < r@.len() implies (#[trigger] r@[q]).swap_kb
                <= x.swap_kb by {
                assert(!prec(r@[q], r@[p as int]));
            }
            lemma_insert_sorted(orig, r@, perm, m, p as int, prec);
            perm = perm.insert(p as int, m);
        }
        r.insert(p, x);
    }
    proof {
        lemma_permutes_from_start(orig, r@, perm);
        assert forall|i: int, j: int| 0 <= i < j < r@.len() implies r@[i].swap_kb
            >= r@[j].swap_kb by {
            assert(!prec(r@[j], r@[i]));
        }
        assert(swap_reorder(orig, r@, perm));
    }
    r
}

/// The `limit` records with the most swap, largest first; records with
/// equal swap in the order they were given. These are the processes whose page
/// distributions the topology view reads.
pub fn top_swap_processes(procs: Vec<ProcessSwapInfo>, limit: usize) -> (r: Vec<ProcessSwapInfo>)
    ensures
        r@.len() == if procs@.len() < limit {
            procs@.len()
        } else {
            limit as nat
        },
        exists|sorted: Seq<ProcessSwapInfo>, perm: Seq<int>|
            #[trigger] swap_reorder(procs@, sorted, perm) && r@ == sorted.take(r@.len() as int)
                && forall|i: int, j: int|
                0 <= i < j < sorted.len() ==> sorted[i].swap_kb >= sorted[j].swap_kb,
{
    let mut s = sort_by_swap_desc(procs);
    let ghost full = s@;
    s.truncate(limit);
    assert(s@ =~= full.take(s@.len() as int));
    s
}


/// Some record of `v` carries `name`.
pub open spec fn named(v: Seq<ProcessSwapInfo>, name: Seq<char>) -> bool {
    exists|k: int| 0 <= k < v.len() && v[k].name@ == name
}

/// How many of the first `n` records carry `name`.
pub open spec fn name_count(ps: Seq<ProcessSwapInfo>, name: Seq<char>, n: int) -> nat
    decreases n,
{
    if n <= 0 {
        0
    } else {
        name_count(ps, name, n - 1) + if ps[n - 1].name@ == name {
            1nat
        } else {
            0nat
        }
    }
}

/// The swap of the first `n` records that carry `name`, summed.
pub open spec fn name_swap(ps: Seq<ProcessSwapInfo>, name: Seq<char>, n: int) -> nat
    decreases n,
{
    if n <= 0 {
        0
    } else {
        name_swap(ps, name, n - 1) + if ps[n - 1].name@ == name {
            ps[n - 1].swap_kb as nat
        } else {
            0nat
        }
    }
}

/// The first position below `n` of a record that carries `name`, or `-1`.
pub open spec fn first_named(ps: Seq<ProcessSwapInfo>, name: Seq<char>, n: int) -> int
    decreases n,
{
    if n <= 0 {
        -1
    } else if first_named(ps, name, n - 1) >= 0 {
        first_named(ps, name, n - 1)
    } else if ps[n - 1].name@ == name {
        n - 1
    } else {
        -1
    }
}

proof fn lemma_first_named(ps: Seq<ProcessSwapInfo>, name: Seq<char>, n: int)
    requires
        0 <= n <= ps.len(),
    ensures
        -1 <= first_named(ps, name, n) < n,
        first_named(ps, name, n) >= 0 ==> ps[first_named(ps, name, n)].name@ == name,
        first_named(ps, name, n) < 0 ==> forall|k: int| 0 <= k < n ==> ps[k].name@ != name,
    decreases n,
{
    if n > 0 {
        lemma_first_named(ps, name, n - 1);
    }
}

proof fn lemma_none_named(ps: Seq<ProcessSwapInfo>, name: Seq<char>, n: int)
    requires
        0 <= n <= ps.len(),
        forall|k: int| 0 <= k < n ==> ps[k].name@ != name,
    ensures
        name_count(ps, name, n) == 0,
        name_swap(ps, name, n) == 0,
        first_named(ps, name, n) == -1,
    decreases n,
{
    if n > 0 {
        lemma_none_named(ps, name, n - 1);
    }
}

proof fn lemma_first_named_stable(ps: Seq<ProcessSwapInfo>, name: Seq<char>, n: int, m: int)
    requires
        0 <= n <= m,
        first_named(ps, name, n) >= 0,
    ensures
        first_named(ps, name, m) == first_named(ps, name, n),
    decreases m - n,
{
    if m > n {
        lemma_first_named_stable(ps, name, n, m - 1);
    }
}

/// The record that stands for all records named like `r` among the first
/// `n`: its pid is their count and its swap their sum, each capped at the
/// largest value of its type.
pub open spec fn group_fits(r: ProcessSwapInfo, ps: Seq<ProcessSwapInfo>, n: int) -> bool {
    &&& first_named(ps, r.name@, n) >= 0
    &&& r.pid as nat == if name_count(ps, r.name@, n) <= u32::MAX {
        name_count(ps, r.name@, n)
    } else {
        u32::MAX as nat
    }
    &&& r.swap_kb as nat == if name_swap(ps, r.name@, n) <= u64::MAX {
        name_swap(ps, r.name@, n)
    } else {
        u64::MAX as nat
    }
    &&& r.last_cpu is None
}

/// One record per process name, as `group_fits` says, in `groups` order by
/// the first record of each name among the first `n`.
pub open spec fn grouped(groups: Seq<ProcessSwapInfo>, ps: Seq<ProcessSwapInfo>, n: int) -> bool {
    &&& forall|i: int, j: int| 0 <= i < j < groups.len() ==> groups[i].name@ != groups[j].name@
    &&& forall|name: Seq<char>|
        #[trigger] first_named(ps, name, n) >= 0 ==> exists|i: int|
            0 <= i < groups.len() && groups[i].name@ == name
    &&& forall|i: int| 0 <= i < groups.len() ==> group_fits(#[trigger] groups[i], ps, n)
    &&& forall|i: int, j: int|
        0 <= i < j < groups.len() ==> first_named(ps, groups[i].name@, n) < first_named(
            ps,
            groups[j].name@,
            n,
        )
}

/// Folds records of the same name into one whose pid is the number of
/// records and whose swap is their total; the result comes largest swap
/// first, and names with equal swap in the order they first appear.
pub fn aggregate_processes(processes: Vec<ProcessSwapInfo>) -> (r: Vec<ProcessSwapInfo>)
    ensures
        forall|i: int, j: int| 0 <= i < j < r@.len() ==> r@[i].name@ != r@[j].name@,
        forall|name: Seq<char>| #[trigger] named(r@, name) <==> named(processes@, name),
        forall|i: int|
            0 <= i < r@.len() ==> group_fits(#[trigger] r@[i], processes@, processes@.len() as int),
        forall|i: int, j: int| 0 <= i < j < r@.len() ==> r@[i].swap_kb >= r@[j].swap_kb,
        forall|i: int, j: int|
            0 <= i < j < r@.len() && r@[i].swap_kb == r@[j].swap_kb ==> first_named(
                processes@,
                r@[i].name@,
                processes@.len() as int,
            ) < first_named(processes@, r@[j].name@, processes@.len() as int),
{
    let ghost ps = processes@;
    let mut groups: Vec<ProcessSwapInfo> = Vec::new();
    let mut i: usize = 0;
    while i < processes.len()
        invariant
            i <= ps.len(),
            ps == processes@,
            grouped(groups@, ps, i as int),
        decreases processes.len() - i,
    {
        let p = &processes[i];
        let ghost before = groups@;
        let mut q: usize = 0;
        while q < groups.len() && groups[q].name != p.name
            invariant
                q <= groups.len(),
                forall|k: int| 0 <= k < q ==> (#[trigger] groups@[k]).name@ != p.name@,
            decreases groups.len() - q,
        {
            q += 1;
        }
        proof {
            lemma_first_named(ps, p.name@, i as int);
        }
        if q < groups.len() {
            let g = ProcessSwapInfo {
                pid: groups[q].pid.saturating_add(1),
                name: groups[q].name.clone(),
                swap_kb: groups[q].swap_kb.saturating_add(p.swap_kb),
                last_cpu: None,
            };
            groups.set(q, g);
        } else {
            proof {
                if first_named(ps, p.name@, i as int) >= 0 {
                    assert(exists|k: int| 0 <= k < before.len() && before[k].name@ == p.name@);
                }
            }
            groups.push(
                ProcessSwapInfo { pid: 1, name: p.name.clone(), swap_kb: p.swap_kb, last_cpu: None },
            );
        }
        proof {
            let n = i as int;
            assert forall|a: int| 0 <= a < groups@.len() implies group_fits(
                #[trigger] groups@[a],
                ps,
                n + 1,
            ) by {
                assert(ps[n] == *p);
                if a < before.len() && a != q {
                    assert(group_fits(before[a], ps, n));
                    assert(groups@[a] == before[a]);
                    if a > q {
                        assert(before[a].name@ != before[q as int].name@);
                    }
                    assert(before[a].name@ != p.name@);
                    lemma_first_named_stable(ps, before[a].name@, n, n + 1);
                } else if a == q && q < before.len() {
                    assert(group_fits(before[a], ps, n));
                    lemma_first_named_stable(ps, before[a].name@, n, n + 1);
                } else {
                    lemma_none_named(ps, p.name@, n);
                }
            }
            assert forall|name: Seq<char>| #[trigger] first_named(ps, name, n + 1) >= 0 implies exists|
                a: int,
            |
                0 <= a < groups@.len() && groups@[a].name@ == name by {
                if first_named(ps, name, n) >= 0 {
                    let a = choose|a: int| 0 <= a < before.len() && before[a].name@ == name;
                    assert(groups@[a].name@ == name);
                } else if q < before.len() {
                    assert(groups@[q as int].name@ == name);
                } else {
                    assert(groups@[before.len() as int].name@ == name);
                }
            }
            assert forall|a: int, b: int| 0 <= a < b < groups@.len() implies first_named(
                ps,
                groups@[a].name@,
                n + 1,
            ) < first_named(ps, groups@[b].name@, n + 1) by {
                assert(group_fits(before[a], ps, n));
                lemma_first_named(ps, before[a].name@, n);
                lemma_first_named_stable(ps, before[a].name@, n, n + 1);
                if b < before.len() {
                    assert(group_fits(before[b], ps, n));
                    lemma_first_named_stable(ps, before[b].name@, n, n + 1);
                }
            }
        }
        i += 1;
    }
    let ghost gs = groups@;
    let r = sort_by_swap_desc(groups);
    proof {
        let perm = choose|perm: Seq<int>| swap_reorder(gs, r@, perm);
        let n = ps.len() as int;
        assert forall|a: int, b: int| 0 <= a < b < r@.len() implies r@[a].name@ != r@[b].name@ by {
            assert(r@[a] == gs[perm[a]]);
            assert(r@[b] == gs[perm[b]]);
            if perm[a] < perm[b] {
            } else {
            }
        }
        assert forall|name: Seq<char>| #[trigger] named(r@, name) <==> named(ps, name) by {
            if named(r@, name) {
                let i = choose|i: int| 0 <= i < r@.len() && r@[i].name@ == name;
                assert(r@[i] == gs[perm[i]]);
                assert(group_fits(gs[perm[i]], ps, n));
                lemma_first_named(ps, name, n);
            }
            if named(ps, name) {
                lemma_named_in_groups(ps, gs, r@, perm, name);
            }
        }
        assert forall|i: int| 0 <= i < r@.len() implies group_fits(#[trigger] r@[i], ps, n) by {
            assert(r@[i] == gs[perm[i]]);
        }
        assert forall|a: int, b: int|
            0 <= a < b < r@.len() && r@[a].swap_kb == r@[b].swap_kb implies first_named(
            ps,
            r@[a].name@,
            n,
        ) < first_named(ps, r@[b].name@, n) by {
            assert(r@[a] == gs[perm[a]]);
            assert(r@[b] == gs[perm[b]]);
        }
    }
    r
}

proof fn lemma_named_in_groups(
    ps: Seq<ProcessSwapInfo>,
    gs: Seq<ProcessSwapInfo>,
    r: Seq<ProcessSwapInfo>,
    perm: Seq<int>,
    name: Seq<char>,
)
    requires
        grouped(gs, ps, ps.len() as int),
        swap_reorder(gs, r, perm),
        named(ps, name),
    ensures
        named(r, name),
{
    let n = ps.len() as int;
    let k = choose|k: int| 0 <= k < ps.len() && ps[k].name@ == name;
    lemma_first_named(ps, name, n);
    assert(first_named(ps, name, n) >= 0);
    let t = choose|t: int| 0 <= t < gs.len() && gs[t].name@ == name;
    assert(covers(perm, t));
    let i = choose|i: int| 0 <= i < perm.len() && perm[i] == t;
    assert(r[i] == gs[perm[i]]);
}

} // verus!
