//! Stable insertion sorting, proved once for every element type: the
//! permutation that a sort builds, and the order it keeps.
use vstd::prelude::*;

verus! {

/// Some position of `perm` holds `t`.
pub open spec fn covers(perm: Seq<int>, t: int) -> bool {
    exists|i: int| 0 <= i < perm.len() && perm[i] == t
}

/// `r` holds the elements of `v`, each once: element `i` of `r` is element
/// `perm[i]` of `v`.
pub open spec fn permutes<T>(v: Seq<T>, r: Seq<T>, perm: Seq<int>) -> bool {
    &&& perm.len() == r.len() == v.len()
    &&& forall|i: int| 0 <= i < r.len() ==> 0 <= #[trigger] perm[i] < v.len()
    &&& forall|i: int, j: int| 0 <= i < j < r.len() ==> perm[i] != perm[j]
    &&& forall|t: int| 0 <= t < v.len() ==> #[trigger] covers(perm, t)
    &&& forall|i: int| 0 <= i < r.len() ==> #[trigger] r[i] == v[perm[i]]
}

/// `r` holds the elements of `v` from position `lo` on, each once.
pub open spec fn permutes_from<T>(v: Seq<T>, r: Seq<T>, perm: Seq<int>, lo: int) -> bool {
    &&& 0 <= lo
    &&& perm.len() == r.len()
    &&& r.len() + lo == v.len()
    &&& forall|i: int| 0 <= i < r.len() ==> lo <= #[trigger] perm[i] < v.len()
    &&& forall|i: int, j: int| 0 <= i < j < r.len() ==> perm[i] != perm[j]
    &&& forall|t: int| lo <= t < v.len() ==> #[trigger] covers(perm, t)
    &&& forall|i: int| 0 <= i < r.len() ==> #[trigger] r[i] == v[perm[i]]
}

/// No element of `r` must come before one that precedes it; `prec(a, b)`
/// says that `a` must come strictly before `b`.
pub open spec fn sorted_by<T>(r: Seq<T>, prec: spec_fn(T, T) -> bool) -> bool {
    forall|i: int, j: int| 0 <= i < j < r.len() ==> !prec(r[j], r[i])
}

/// Elements of `r` that tie under `prec` keep the order of their
/// positions `perm` in the input.
pub open spec fn stable_by<T>(r: Seq<T>, perm: Seq<int>, prec: spec_fn(T, T) -> bool) -> bool {
    forall|i: int, j: int|
        0 <= i < j < r.len() && !prec(r[i], r[j]) && !prec(r[j], r[i]) ==> perm[i] < perm[j]
}

/// Inserting element `m` of `v` into a sorted run at a position `p` after
/// all that precede it, before all that do not, keeps the run a stable
/// sort of the elements of `v` from `m` on.
pub proof fn lemma_insert_sorted<T>(
    v: Seq<T>,
    r: Seq<T>,
    perm: Seq<int>,
    m: int,
    p: int,
    prec: spec_fn(T, T) -> bool,
)
    requires
        permutes_from(v, r, perm, m + 1),
        sorted_by(r, prec),
        stable_by(r, perm, prec),
        0 <= m,
        0 <= p <= r.len(),
        forall|k: int| 0 <= k < p ==> prec(#[trigger] r[k], v[m]) && !prec(v[m], r[k]),
        forall|k: int| p <= k < r.len() ==> !prec(#[trigger] r[k], v[m]),
    ensures
        permutes_from(v, r.insert(p, v[m]), perm.insert(p, m), m),
        sorted_by(r.insert(p, v[m]), prec),
        stable_by(r.insert(p, v[m]), perm.insert(p, m), prec),
{
    let x = v[m];
    let nr = r.insert(p, x);
    let np = perm.insert(p, m);
    assert forall|i: int| 0 <= i < nr.len() implies #[trigger] nr[i] == v[np[i]] by {
        if i > p {
            assert(nr[i] == r[i - 1]);
        }
    }
    assert forall|i: int| 0 <= i < nr.len() implies m <= #[trigger] np[i] < v.len() by {
        if i > p {
            assert(np[i] == perm[i - 1]);
        }
    }
    assert forall|i: int, j: int| 0 <= i < j < nr.len() implies np[i] != np[j] by {
        if j > p {
            assert(np[j] == perm[j - 1]);
        }
        if i > p {
            assert(np[i] == perm[i - 1]);
        }
    }
    assert forall|t: int| m <= t < v.len() implies #[trigger] covers(np, t) by {
        if t == m {
            assert(np[p] == t);
        } else {
            assert(covers(perm, t));
            let i0 = choose|i: int| 0 <= i < perm.len() && perm[i] == t;
            if i0 < p {
                assert(np[i0] == t);
            } else {
                assert(np[i0 + 1] == t);
            }
        }
    }
    assert forall|i: int, j: int| 0 <= i < j < nr.len() implies !prec(nr[j], nr[i]) by {
        if j > p {
            assert(nr[j] == r[j - 1]);
        }
        if i > p {
            assert(nr[i] == r[i - 1]);
        }
    }
    assert forall|i: int, j: int|
        0 <= i < j < nr.len() && !prec(nr[i], nr[j]) && !prec(nr[j], nr[i]) implies np[i]
        < np[j] by {
        if j > p {
            assert(nr[j] == r[j - 1]);
            assert(np[j] == perm[j - 1]);
        }
        if i > p {
            assert(nr[i] == r[i - 1]);
            assert(np[i] == perm[i - 1]);
        }
    }
}

/// A run built from all of `v` holds every element of `v` once.
pub proof fn lemma_permutes_from_start<T>(v: Seq<T>, r: Seq<T>, perm: Seq<int>)
    requires
        permutes_from(v, r, perm, 0),
    ensures
        permutes(v, r, perm),
{
}

} // verus!
