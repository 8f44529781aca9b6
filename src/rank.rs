//! Ordering of joined records: a stable sort under a selectable key.
use vstd::prelude::*;

use crate::reorder::{
    lemma_insert_sorted, lemma_permutes_from_start, permutes, permutes_from, sorted_by, stable_by,
};
use crate::text::chars_of;
use crate::types::UnifiedProcessInfo;

verus! {

/// The key the joined view is ordered by.
#[derive(Clone, Copy, Debug, PartialEq, Eq, Structural)]
pub enum SortColumn {
    /// Swapped-out memory, largest first.
    Swap,
    /// Accelerator memory, largest first; none counts as zero.
    GpuMem,
    /// Process name, in lexicographic order.
    Name,
    /// Dominant topology node, smallest first; none comes before any node.
    NumaNode,
}

impl SortColumn {
    /// The key that follows this one when the user cycles through keys.
    pub fn next(self) -> (r: SortColumn)
        ensures
            r == match self {
                SortColumn::Swap => SortColumn::GpuMem,
                SortColumn::GpuMem => SortColumn::NumaNode,
                SortColumn::NumaNode => SortColumn::Name,
                SortColumn::Name => SortColumn::Swap,
            },
    {
        match self {
            SortColumn::Swap => SortColumn::GpuMem,
            SortColumn::GpuMem => SortColumn::NumaNode,
            SortColumn::NumaNode => SortColumn::Name,
            SortColumn::Name => SortColumn::Swap,
        }
    }

    /// The short name shown in the title bar.
    pub fn label(self) -> (r: &'static str)
        ensures
            r@ == match self {
                SortColumn::Swap => "swap"@,
                SortColumn::GpuMem => "gpu_mem"@,
                SortColumn::Name => "name"@,
                SortColumn::NumaNode => "numa"@,
            },
    {
        match self {
            SortColumn::Swap => "swap",
            SortColumn::GpuMem => "gpu_mem",
            SortColumn::Name => "name",
            SortColumn::NumaNode => "numa",
        }
    }
}

/// The orders the records can be put in.
#[derive(Clone, Copy, Debug, PartialEq, Eq, Structural)]
pub enum RankKey {
    /// Swap plus accelerator memory, largest first.
    Total,
    Column(SortColumn),
}

/// Lexicographic order on character sequences.
pub open spec fn lex_lt(a: Seq<char>, b: Seq<char>) -> bool
    decreases a.len(),
{
    if a.len() == 0 {
        b.len() > 0
    } else if b.len() == 0 {
        false
    } else if a[0] as u32 != b[0] as u32 {
        (a[0] as u32) < (b[0] as u32)
    } else {
        lex_lt(a.drop_first(), b.drop_first())
    }
}

pub proof fn lemma_lex_asymmetric(a: Seq<char>, b: Seq<char>)
    ensures
        lex_lt(a, b) ==> !lex_lt(b, a),
    decreases a.len(),
{
    if a.len() > 0 && b.len() > 0 && a[0] as u32 == b[0] as u32 {
        lemma_lex_asymmetric(a.drop_first(), b.drop_first());
    }
}

/// If `c` comes before `a`, then `b` lies after `c` or before `a`.
pub proof fn lemma_lex_split(a: Seq<char>, b: Seq<char>, c: Seq<char>)
    ensures
        lex_lt(c, a) ==> lex_lt(c, b) || lex_lt(b, a),
    decreases a.len(),
{
    if a.len() > 0 && b.len() > 0 && c.len() > 0 && a[0] as u32 == b[0] as u32 && b[0] as u32
        == c[0] as u32 {
        lemma_lex_split(a.drop_first(), b.drop_first(), c.drop_first());
    }
}

pub open spec fn total_kb(r: UnifiedProcessInfo) -> int {
    r.swap_kb + match r.gpu_memory_kb {
        Some(g) => g as int,
        None => 0,
    }
}

pub open spec fn gpu_kb(r: UnifiedProcessInfo) -> int {
    match r.gpu_memory_kb {
        Some(g) => g as int,
        None => 0,
    }
}

/// Whether `a` must come strictly before `b` under `key`.
pub open spec fn precedes(a: UnifiedProcessInfo, b: UnifiedProcessInfo, key: RankKey) -> bool {
    match key {
        RankKey::Total => total_kb(a) > total_kb(b),
        RankKey::Column(SortColumn::Swap) => a.swap_kb > b.swap_kb,
        RankKey::Column(SortColumn::GpuMem) => gpu_kb(a) > gpu_kb(b),
        RankKey::Column(SortColumn::Name) => lex_lt(a.name@, b.name@),
        RankKey::Column(SortColumn::NumaNode) => match (a.numa_node, b.numa_node) {
            (None, Some(_)) => true,
            (Some(x), Some(y)) => x < y,
            _ => false,
        },
    }
}

pub proof fn lemma_precedes_order(
    a: UnifiedProcessInfo,
    b: UnifiedProcessInfo,
    c: UnifiedProcessInfo,
    key: RankKey,
)
    ensures
        precedes(a, b, key) ==> !precedes(b, a, key),
        precedes(c, a, key) ==> precedes(c, b, key) || precedes(b, a, key),
{
    if key == RankKey::Column(SortColumn::Name) {
        lemma_lex_asymmetric(a.name@, b.name@);
        lemma_lex_split(a.name@, b.name@, c.name@);
    }
}

/// `precedes` under `key`, as a relation.
pub open spec fn rank_order(key: RankKey) -> spec_fn(UnifiedProcessInfo, UnifiedProcessInfo) -> bool {
    |a: UnifiedProcessInfo, b: UnifiedProcessInfo| precedes(a, b, key)
}

/// `v` is ordered under `key`.
pub open spec fn ranked(v: Seq<UnifiedProcessInfo>, key: RankKey) -> bool {
    sorted_by(v, rank_order(key))
}

/// `r` is `v` reordered by `perm` (position in `r` to position in `v`),
/// and records that tie under `key` keep their order.
pub open spec fn stable_reorder(
    v: Seq<UnifiedProcessInfo>,
    r: Seq<UnifiedProcessInfo>,
    perm: Seq<int>,
    key: RankKey,
) -> bool {
    permutes(v, r, perm) && stable_by(r, perm, rank_order(key))
}

fn lex_lt_exec(a: &String, b: &String) -> (r: bool)
    ensures
        r == lex_lt(a@, b@),
{
    let x = chars_of(a.as_str());
    let y = chars_of(b.as_str());
    let mut i: usize = 0;
    assert(x@.skip(0) =~= x@);
    assert(y@.skip(0) =~= y@);
    while i < x.len() && i < y.len() && x[i] as u32 == y[i] as u32
        invariant
            i <= x.len(),
            i <= y.len(),
            lex_lt(a@, b@) == lex_lt(x@.skip(i as int), y@.skip(i as int)),
        decreases x.len() - i,
    {
        assert(x@.skip(i as int).drop_first() =~= x@.skip(i + 1));
        assert(y@.skip(i as int).drop_first() =~= y@.skip(i + 1));
        i += 1;
    }
    if i == x.len() {
        i < y.len()
    } else if i == y.len() {
        false
    } else {
        (x[i] as u32) < (y[i] as u32)
    }
}

fn precedes_exec(a: &UnifiedProcessInfo, b: &UnifiedProcessInfo, key: RankKey) -> (r: bool)
    ensures
        r == precedes(*a, *b, key),
{
    match key {
        RankKey::Total => {
            let ta = a.swap_kb as u128 + match a.gpu_memory_kb {
                Some(g) => g as u128,
                None => 0,
            };
            let tb = b.swap_kb as u128 + match b.gpu_memory_kb {
                Some(g) => g as u128,
                None => 0,
            };
            ta > tb
        },
        RankKey::Column(SortColumn::Swap) => a.swap_kb > b.swap_kb,
        RankKey::Column(SortColumn::GpuMem) => {
            let ga = match a.gpu_memory_kb {
                Some(g) => g,
                None => 0,
            };
            let gb = match b.gpu_memory_kb {
                Some(g) => g,
                None => 0,
            };
            ga > gb
        },
        RankKey::Column(SortColumn::Name) => lex_lt_exec(&a.name, &b.name),
        RankKey::Column(SortColumn::NumaNode) => match (a.numa_node, b.numa_node) {
            (None, Some(_)) => true,
            (Some(x), Some(y)) => x < y,
            _ => false,
        },
    }
}

/// Sorts `v` under `key`, keeping the order of records that tie.
pub fn rank_by(v: Vec<UnifiedProcessInfo>, key: RankKey) -> (r: Vec<UnifiedProcessInfo>)
    ensures
        ranked(r@, key),
        exists|perm: Seq<int>| stable_reorder(v@, r@, perm, key),
{
    let ghost orig = v@;
    let ghost prec = rank_order(key);
    let mut v = v;
    let mut r: Vec<UnifiedProcessInfo> = Vec::new();
    let ghost mut perm: Seq<int> = Seq::empty();
    while v.len() > 0
        invariant
            prec == rank_order(key),
            v@ == orig.take(v.len() as int),
            permutes_from(orig, r@, perm, v.len() as int),
            sorted_by(r@, prec),
            stable_by(r@, perm, prec),
        decreases v.len(),
    {
        let x = v.pop().unwrap();
        let ghost m = v.len() as int;
        assert(v@ =~= orig.take(m));
        let mut p: usize = 0;
        while p < r.len() && precedes_exec(&r[p], &x, key)
            invariant
                p <= r.len(),
                forall|k: int| 0 <= k < p ==> precedes(#[trigger] r@[k], x, key),
            decreases r.len() - p,
        {
            p += 1;
        }
        proof {
            assert forall|q: int| p <= q < r@.len() implies !precedes(#[trigger] r@[q], x, key) by {
                if q > p {
                    lemma_precedes_order(x, r@[p as int], r@[q], key);
                }
            }
            assert forall|k: int| 0 <= k < p implies !precedes(x, #[trigger] r@[k], key) by {
                lemma_precedes_order(r@[k], x, x, key);
            }
            lemma_insert_sorted(orig, r@, perm, m, p as int, prec);
            perm = perm.insert(p as int, m);
        }
        r.insert(p, x);
    }
    proof {
        lemma_permutes_from_start(orig, r@, perm);
        assert(stable_reorder(orig, r@, perm, key));
    }
    r
}

/// Orders the joined records under a column: largest first for swap and
/// accelerator memory, smallest first for name and node. Records that tie
/// keep their order.
pub fn sort_unified_procs(procs: Vec<UnifiedProcessInfo>, column: SortColumn) -> (r: Vec<
    UnifiedProcessInfo,
>)
    ensures
        ranked(r@, RankKey::Column(column)),
        exists|perm: Seq<int>| stable_reorder(procs@, r@, perm, RankKey::Column(column)),
{
    rank_by(procs, RankKey::Column(column))
}

} // verus!
