//! Topology text: per-node meminfo, CPU lists, per-process page maps, and
//! the classification of nodes.
use std::collections::HashMap;
use vstd::prelude::*;

use crate::text::{
    chars_of, contains, contains_exec, starts_with, starts_with_exec, find, find_exec, lines, lines_exec, parse_u32,
    parse_u32_spec, parse_u64, parse_u64_spec, split, split_exec, string_of, sub_vec, trim,
    trimmed, words, words_exec,
};
use crate::reorder::{
    lemma_insert_sorted, lemma_permutes_from_start, permutes, permutes_from, sorted_by, stable_by,
};
use crate::types::{NumaNode, NumaNodeType, ProcessNumaInfo};

verus! {

broadcast use vstd::std_specs::hash::group_hash_axioms;

pub open spec fn strictly_increasing(v: Seq<u32>) -> bool {
    forall|i: int, j: int| 0 <= i < j < v.len() ==> v[i] < v[j]
}

/// Whether one comma-separated piece of a CPU list names CPU `x`: the
/// piece is a number, or two numbers joined by a dash that bound `x`.
pub open spec fn cpulist_piece_has(piece: Seq<char>, x: u32) -> bool {
    let t = trim(piece);
    let d = find(t, '-');
    if d >= 0 {
        match (parse_u32_spec(t.subrange(0, d)), parse_u32_spec(t.subrange(d + 1, t.len() as int))) {
            (Some(a), Some(b)) => a <= x <= b,
            _ => false,
        }
    } else {
        parse_u32_spec(t) == Some(x)
    }
}

/// The pieces of a CPU list.
pub open spec fn cpulist_pieces(s: Seq<char>) -> Seq<Seq<char>> {
    split(trim(s), seq![','])
}

/// Whether the CPU list `s` names CPU `x`.
pub open spec fn cpulist_has(s: Seq<char>, x: u32) -> bool {
    exists|i: int| 0 <= i < cpulist_pieces(s).len() && cpulist_piece_has(cpulist_pieces(s)[i], x)
}

/// Adds `x` to a strictly increasing vector, keeping it so.
fn insert_sorted(r: &mut Vec<u32>, x: u32)
    requires
        strictly_increasing(old(r)@),
    ensures
        strictly_increasing(final(r)@),
        forall|y: u32| final(r)@.contains(y) <==> (old(r)@.contains(y) || y == x),
{
    let n = r.len();
    if n == 0 || r[n - 1] < x {
        let ghost before = r@;
        r.push(x);
        assert forall|y: u32| #![trigger r@.contains(y)] #![trigger before.contains(y)] r@.contains(y) <==> (before.contains(y) || y == x) by {
            if r@.contains(y) {
                let k = choose|k: int| 0 <= k < r@.len() && r@[k] == y;
                if k < n {
                    assert(before[k] == y);
                }
            }
            if before.contains(y) {
                let k = choose|k: int| 0 <= k < before.len() && before[k] == y;
                assert(r@[k] == y);
            }
            if y == x {
                assert(r@[n as int] == y);
            }
        }
        return;
    }
    let mut p: usize = 0;
    while r[p] < x
        invariant
            n == r.len() > 0,
            r[n - 1] >= x,
            p < n,
            forall|k: int| 0 <= k < p ==> r[k] < x,
        decreases n - p,
    {
        p += 1;
    }
    if r[p] == x {
        assert(r@.contains(x));
        return;
    }
    let ghost before = r@;
    r.insert(p, x);
    assert forall|i: int, j: int| 0 <= i < j < r@.len() implies r@[i] < r@[j] by {
        if j < p {
        } else if j == p {
        } else if i < p {
            assert(r@[j] == before[j - 1]);
        } else if i == p {
            assert(r@[j] == before[j - 1]);
            assert(before[p as int] > x);
        } else {
            assert(r@[j] == before[j - 1]);
            assert(r@[i] == before[i - 1]);
        }
    }
    assert forall|y: u32| #![trigger r@.contains(y)] #![trigger before.contains(y)] r@.contains(y) <==> (before.contains(y) || y == x) by {
        if before.contains(y) {
            let k = choose|k: int| 0 <= k < before.len() && before[k] == y;
            if k < p {
                assert(r@[k] == y);
            } else {
                assert(r@[k + 1] == y);
            }
        }
        if y == x {
            assert(r@[p as int] == y);
        }
        if r@.contains(y) {
            let k = choose|k: int| 0 <= k < r@.len() && r@[k] == y;
            if k < p {
                assert(before[k] == y);
            } else if k > p {
                assert(before[k - 1] == y);
            }
        }
    }
}

/// Parses a CPU list such as `0-3,8-11`: comma-separated pieces, each a
/// number or an inclusive range written with a dash. Pieces that do not
/// parse are skipped. The result is strictly increasing and holds exactly
/// the CPUs that the list names; an empty list names none.
pub fn parse_cpulist(content: &str) -> (r: Vec<u32>)
    ensures
        strictly_increasing(r@),
        forall|x: u32| r@.contains(x) <==> cpulist_has(content@, x),
        r@.len() > 0 ==> forall|x: u32|
            #![trigger cpulist_has(content@, x)]
            cpulist_has(content@, x) ==> r@[0] <= x <= r@.last(),
{
    let s = chars_of(content);
    let t = trimmed(&s);
    let comma: Vec<char> = vec![','];
    assert(comma@ =~= seq![',']);
    let pieces = split_exec(&t, &comma);
    let ghost ps = cpulist_pieces(content@);
    assert(pieces@.len() == ps.len());
    assert(forall|k: int| 0 <= k < ps.len() ==> #[trigger] pieces@[k]@ == ps[k]) by {
        assert forall|k: int| 0 <= k < ps.len() implies #[trigger] pieces@[k]@ == ps[k] by {
            assert(pieces@.map_values(|v: Vec<char>| v@)[k] == ps[k]);
        }
    }
    let mut r: Vec<u32> = Vec::new();
    let mut i: usize = 0;
    while i < pieces.len()
        invariant
            i <= pieces.len() == ps.len(),
            ps == cpulist_pieces(content@),
            forall|k: int| 0 <= k < ps.len() ==> #[trigger] pieces@[k]@ == ps[k],
            strictly_increasing(r@),
            forall|x: u32|
                r@.contains(x) <==> exists|k: int| 0 <= k < i && cpulist_piece_has(ps[k], x),
        decreases pieces.len() - i,
    {
        let ghost before = r@;
        let tok = trimmed(&pieces[i]);
        let ghost piece = ps[i as int];
        assert(tok@ == trim(piece));
        match find_exec(&tok, '-') {
            Some(d) => {
                let first = sub_vec(&tok, 0, d);
                let second = sub_vec(&tok, d + 1, tok.len());
                let pa = parse_u32(&first);
                let pb = parse_u32(&second);
                assert(first@ == trim(piece).subrange(0, d as int));
                assert(second@ == trim(piece).subrange(d + 1, trim(piece).len() as int));
                match (pa, pb) {
                    (Some(a), Some(b)) => {
                        if a <= b {
                            let mut c = a;
                            while c < b
                                invariant
                                    a <= c <= b,
                                    strictly_increasing(r@),
                                    forall|x: u32|
                                        r@.contains(x) <==> (before.contains(x) || (a <= x < c)),
                                decreases b - c,
                            {
                                insert_sorted(&mut r, c);
                                c += 1;
                            }
                            insert_sorted(&mut r, b);
                        }
                        assert(forall|x: u32|
                            cpulist_piece_has(piece, x) <==> (a <= x && x <= b));
                        assert(forall|x: u32|
                            #![trigger r@.contains(x)]
                            #![trigger cpulist_piece_has(piece, x)]
                            r@.contains(x) <==> (before.contains(x) || cpulist_piece_has(piece, x)));
                    },
                    _ => {
                        assert(forall|x: u32| !cpulist_piece_has(piece, x));
                        assert(forall|x: u32|
                            #![trigger r@.contains(x)]
                            #![trigger cpulist_piece_has(piece, x)]
                            r@.contains(x) <==> (before.contains(x) || cpulist_piece_has(piece, x)));
                    },
                }
            },
            None => {
                match parse_u32(&tok) {
                    Some(x) => {
                        insert_sorted(&mut r, x);
                        assert(forall|y: u32| cpulist_piece_has(piece, y) <==> y == x);
                        assert(forall|z: u32|
                            #![trigger r@.contains(z)]
                            #![trigger cpulist_piece_has(piece, z)]
                            r@.contains(z) <==> (before.contains(z) || cpulist_piece_has(piece, z)));
                    },
                    None => {
                        assert(forall|y: u32| !cpulist_piece_has(piece, y));
                        assert(forall|x: u32|
                            #![trigger r@.contains(x)]
                            #![trigger cpulist_piece_has(piece, x)]
                            r@.contains(x) <==> (before.contains(x) || cpulist_piece_has(piece, x)));
                    },
                }
            },
        }
        assert forall|x: u32|
            r@.contains(x) <==> exists|k: int| 0 <= k < i + 1 && cpulist_piece_has(ps[k], x) by {
            assert(r@.contains(x) <==> (before.contains(x) || cpulist_piece_has(piece, x)));
            if cpulist_piece_has(piece, x) {
                assert(0 <= i < i + 1 && cpulist_piece_has(ps[i as int], x));
            }
            if exists|k: int| 0 <= k < i + 1 && cpulist_piece_has(ps[k], x) {
                let k = choose|k: int| 0 <= k < i + 1 && cpulist_piece_has(ps[k], x);
                if k < i {
                    assert(before.contains(x));
                }
            }
        }
        i += 1;
    }
    proof {
        if r@.len() > 0 {
            assert forall|x: u32| #[trigger] cpulist_has(content@, x) implies r@[0] <= x <= r@.last() by {
                assert(r@.contains(x));
                let k = choose|k: int| 0 <= k < r@.len() && r@[k] == x;
                if k > 0 {
                    assert(r@[0] < r@[k]);
                }
                if k < r@.len() - 1 {
                    assert(r@[k] < r@[r@.len() - 1]);
                }
            }
        }
    }
    r
}

/// The kind of a node: CPUs make it a CPU node whatever the accelerator
/// index says; a node without CPUs that the index maps to a device is
/// memory attached to that device; any other node is unclassified.
pub open spec fn node_kind(cpus: Seq<u32>, id: u32, gpu_map: Map<u32, u32>) -> NumaNodeType {
    if cpus.len() > 0 {
        NumaNodeType::Cpu
    } else if gpu_map.contains_key(id) {
        NumaNodeType::GpuHbm { gpu_index: gpu_map[id] }
    } else {
        NumaNodeType::Unknown
    }
}

/// Classifies a node; `gpu_map` maps a node id to the index of the
/// accelerator whose memory the node is.
pub fn classify_numa_node(node: &NumaNode, gpu_map: &HashMap<u32, u32>) -> (r: NumaNodeType)
    ensures
        r == node_kind(node.cpus@, node.id, gpu_map@),
        node.cpus@.len() > 0 ==> r == NumaNodeType::Cpu,
{
    if node.cpus.len() > 0 {
        NumaNodeType::Cpu
    } else {
        match gpu_map.get(&node.id) {
            Some(g) => NumaNodeType::GpuHbm { gpu_index: *g },
            None => NumaNodeType::Unknown,
        }
    }
}


/// The number in a meminfo line `Node N Field:   12345 kB`: the first word
/// after the first colon.
pub open spec fn kb_value(line: Seq<char>) -> Option<u64> {
    let c = find(line, ':');
    if c < 0 {
        None
    } else {
        let w = words(trim(line.subrange(c + 1, line.len() as int)));
        if w.len() == 0 {
            None
        } else {
            parse_u64_spec(w[0])
        }
    }
}

fn extract_kb_value(line: &Vec<char>) -> (r: Option<u64>)
    ensures
        r == kb_value(line@),
{
    match find_exec(line, ':') {
        None => None,
        Some(c) => {
            let after = trimmed(&sub_vec(line, c + 1, line.len()));
            let w = words_exec(&after);
            if w.len() == 0 {
                None
            } else {
                assert(w@.map_values(|v: Vec<char>| v@)[0] == w@[0]@);
                parse_u64(&w[0])
            }
        },
    }
}

/// The totals after reading `ls`: a line holding `MemTotal:` sets the
/// total, else one holding `MemFree:` sets the free amount, where its
/// number parses; a later line wins.
pub open spec fn meminfo_of(ls: Seq<Seq<char>>) -> (u64, u64)
    decreases ls.len(),
{
    if ls.len() == 0 {
        (0, 0)
    } else {
        let (t, f) = meminfo_of(ls.drop_last());
        let l = ls.last();
        if contains(l, "MemTotal:"@) {
            match kb_value(l) {
                Some(v) => (v, f),
                None => (t, f),
            }
        } else if contains(l, "MemFree:"@) {
            match kb_value(l) {
                Some(v) => (t, v),
                None => (t, f),
            }
        } else {
            (t, f)
        }
    }
}

/// Reads total and free memory, in kibibytes, from a node's meminfo text;
/// an amount that no line gives is 0.
pub fn parse_numa_meminfo(content: &str) -> (r: (u64, u64))
    ensures
        r == meminfo_of(lines(content@)),
{
    let s = chars_of(content);
    let ls = lines_exec(&s);
    let ghost lv = lines(content@);
    let total_pat = chars_of("MemTotal:");
    let free_pat = chars_of("MemFree:");
    let mut total: u64 = 0;
    let mut free: u64 = 0;
    let mut i: usize = 0;
    while i < ls.len()
        invariant
            i <= ls.len() == lv.len(),
            lv == ls@.map_values(|v: Vec<char>| v@),
            total_pat@ == "MemTotal:"@,
            free_pat@ == "MemFree:"@,
            (total, free) == meminfo_of(lv.take(i as int)),
        decreases ls.len() - i,
    {
        let line = &ls[i];
        assert(lv.take(i + 1).drop_last() =~= lv.take(i as int));
        assert(lv.take(i + 1).last() == line@);
        if contains_exec(line, &total_pat) {
            match extract_kb_value(line) {
                Some(v) => total = v,
                None => {},
            }
        } else if contains_exec(line, &free_pat) {
            match extract_kb_value(line) {
                Some(v) => free = v,
                None => {},
            }
        }
        i += 1;
    }
    assert(lv.take(lv.len() as int) =~= lv);
    (total, free)
}

/// The sum of the values of a finite map.
pub open spec fn map_sum(m: Map<u32, u64>) -> nat
    decreases m.dom().len(),
    via map_sum_decreases
{
    if m.dom().finite() && m.dom().len() > 0 {
        let k = m.dom().choose();
        m[k] as nat + map_sum(m.remove(k))
    } else {
        0
    }
}

#[via_fn]
proof fn map_sum_decreases(m: Map<u32, u64>) {
    if m.dom().finite() && m.dom().len() > 0 {
        let k = m.dom().choose();
        assert(m.remove(k).dom() =~= m.dom().remove(k));
    }
}

/// Any key may be taken out first in the sum of a map.
pub proof fn lemma_map_sum_remove(m: Map<u32, u64>, k: u32)
    requires
        m.dom().finite(),
        m.dom().contains(k),
    ensures
        map_sum(m) == m[k] as nat + map_sum(m.remove(k)),
    decreases m.dom().len(),
{
    assert(m.dom().len() > 0);
    let j = m.dom().choose();
    if j != k {
        lemma_map_sum_remove(m.remove(j), k);
        lemma_map_sum_remove(m.remove(k), j);
        assert(m.remove(j).remove(k) =~= m.remove(k).remove(j));
    }
}

/// Setting the value of a key changes the sum by the difference.
pub proof fn lemma_map_sum_insert(m: Map<u32, u64>, k: u32, v: u64)
    requires
        m.dom().finite(),
    ensures
        m.dom().contains(k) ==> map_sum(m.insert(k, v)) + m[k] == map_sum(m) + v,
        !m.dom().contains(k) ==> map_sum(m.insert(k, v)) == map_sum(m) + v,
{
    lemma_map_sum_remove(m.insert(k, v), k);
    if m.dom().contains(k) {
        lemma_map_sum_remove(m, k);
        assert(m.insert(k, v).remove(k) =~= m.remove(k));
    } else {
        assert(m.insert(k, v).remove(k) =~= m);
    }
}

/// Each value of a map is at most its sum.
pub proof fn lemma_map_sum_bounds(m: Map<u32, u64>, k: u32)
    requires
        m.dom().finite(),
        m.dom().contains(k),
    ensures
        m[k] <= map_sum(m),
{
    lemma_map_sum_remove(m, k);
}

/// The node and page count that one word of a page map gives: a word
/// `N<node>=<pages>` whose two numbers parse.
pub open spec fn page_entry(tok: Seq<char>) -> Option<(u32, u64)> {
    let e = find(tok, '=');
    if e < 0 {
        None
    } else {
        let key = tok.subrange(0, e);
        let val = tok.subrange(e + 1, tok.len() as int);
        if key.len() > 0 && key[0] == 'N' {
            match (parse_u32_spec(key.drop_first()), parse_u64_spec(val)) {
                (Some(n), Some(p)) => Some((n, p)),
                _ => None,
            }
        } else {
            None
        }
    }
}

/// Pages per node and their total after one more word: the pages are
/// added to those of the node, unless the total would leave `u64`, in
/// which case the word is skipped as malformed.
pub open spec fn page_step(st: (Map<u32, u64>, nat), tok: Seq<char>) -> (Map<u32, u64>, nat) {
    match page_entry(tok) {
        Some((n, p)) => if st.1 + p <= u64::MAX {
            let prev: nat = if st.0.contains_key(n) {
                st.0[n] as nat
            } else {
                0
            };
            (st.0.insert(n, (prev + p) as u64), (st.1 + p) as nat)
        } else {
            st
        },
        None => st,
    }
}

pub open spec fn page_words(st: (Map<u32, u64>, nat), ws: Seq<Seq<char>>) -> (
    Map<u32, u64>,
    nat,
)
    decreases ws.len(),
{
    if ws.len() == 0 {
        st
    } else {
        page_step(page_words(st, ws.drop_last()), ws.last())
    }
}

pub open spec fn page_lines(ls: Seq<Seq<char>>) -> (Map<u32, u64>, nat)
    decreases ls.len(),
{
    if ls.len() == 0 {
        (Map::empty(), 0)
    } else {
        page_words(page_lines(ls.drop_last()), words(ls.last()))
    }
}

/// Pages per node and their total, read from a process's page-map text.
pub open spec fn page_distribution(s: Seq<char>) -> (Map<u32, u64>, nat) {
    page_lines(lines(s))
}

fn page_entry_exec(tok: &Vec<char>) -> (r: Option<(u32, u64)>)
    ensures
        r == page_entry(tok@),
{
    match find_exec(tok, '=') {
        None => None,
        Some(e) => {
            if e > 0 && tok[0] == 'N' {
                let key = sub_vec(tok, 1, e);
                let val = sub_vec(tok, e + 1, tok.len());
                assert(key@ == tok@.subrange(0, e as int).drop_first());
                match (parse_u32(&key), parse_u64(&val)) {
                    (Some(n), Some(p)) => Some((n, p)),
                    _ => None,
                }
            } else {
                None
            }
        },
    }
}

/// The words of all lines, in order.
pub open spec fn all_words(ls: Seq<Seq<char>>) -> Seq<Seq<char>>
    decreases ls.len(),
{
    if ls.len() == 0 {
        seq![]
    } else {
        all_words(ls.drop_last()) + words(ls.last())
    }
}

/// The pages that the words `ws` give node `k`, summed.
pub open spec fn node_pages(ws: Seq<Seq<char>>, k: u32) -> nat
    decreases ws.len(),
{
    if ws.len() == 0 {
        0
    } else {
        node_pages(ws.drop_last(), k) + match page_entry(ws.last()) {
            Some((n, p)) => if n == k {
                p as nat
            } else {
                0nat
            },
            None => 0nat,
        }
    }
}

/// The word `w` gives pages on node `k`.
pub open spec fn word_names(w: Seq<char>, k: u32) -> bool {
    match page_entry(w) {
        Some((n, _)) => n == k,
        None => false,
    }
}

/// Some word of `ws` gives pages on node `k`.
pub open spec fn node_named(ws: Seq<Seq<char>>, k: u32) -> bool {
    exists|i: int| 0 <= i < ws.len() && #[trigger] word_names(ws[i], k)
}

/// The pages that the words `ws` give all nodes, summed.
pub open spec fn all_pages(ws: Seq<Seq<char>>) -> nat
    decreases ws.len(),
{
    if ws.len() == 0 {
        0
    } else {
        all_pages(ws.drop_last()) + match page_entry(ws.last()) {
            Some((_, p)) => p as nat,
            None => 0nat,
        }
    }
}

proof fn lemma_page_words_concat(st: (Map<u32, u64>, nat), a: Seq<Seq<char>>, b: Seq<Seq<char>>)
    ensures
        page_words(st, a + b) == page_words(page_words(st, a), b),
    decreases b.len(),
{
    if b.len() > 0 {
        lemma_page_words_concat(st, a, b.drop_last());
        assert((a + b).drop_last() =~= a + b.drop_last());
    } else {
        assert(a + b =~= a);
    }
}

proof fn lemma_page_lines_words(ls: Seq<Seq<char>>)
    ensures
        page_lines(ls) == page_words((Map::empty(), 0), all_words(ls)),
    decreases ls.len(),
{
    if ls.len() > 0 {
        lemma_page_lines_words(ls.drop_last());
        lemma_page_words_concat((Map::empty(), 0), all_words(ls.drop_last()), words(ls.last()));
    }
}

proof fn lemma_node_pages_unnamed(ws: Seq<Seq<char>>, k: u32)
    requires
        !node_named(ws, k),
    ensures
        node_pages(ws, k) == 0,
    decreases ws.len(),
{
    if ws.len() > 0 {
        let pre = ws.drop_last();
        assert(!word_names(ws[ws.len() - 1], k));
        assert forall|i: int| 0 <= i < pre.len() implies !#[trigger] word_names(pre[i], k) by {
            assert(pre[i] == ws[i]);
        }
        lemma_node_pages_unnamed(pre, k);
    }
}

proof fn lemma_node_pages_bound(ws: Seq<Seq<char>>, k: u32)
    ensures
        node_pages(ws, k) <= all_pages(ws),
    decreases ws.len(),
{
    if ws.len() > 0 {
        lemma_node_pages_bound(ws.drop_last(), k);
    }
}

/// Where no word is skipped for overflow, each node gets the sum of its
/// pages over all words, and the total is the sum over all nodes' words.
proof fn lemma_page_words_sums(ws: Seq<Seq<char>>)
    requires
        all_pages(ws) <= u64::MAX,
    ensures
        page_words((Map::empty(), 0), ws).1 == all_pages(ws),
        forall|k: u32|
            #[trigger] page_words((Map::empty(), 0), ws).0.contains_key(k) <==> node_named(ws, k),
        forall|k: u32|
            #[trigger] page_words((Map::empty(), 0), ws).0.contains_key(k) ==> page_words(
                (Map::empty(), 0),
                ws,
            ).0[k] == node_pages(ws, k),
    decreases ws.len(),
{
    if ws.len() > 0 {
        let pre = ws.drop_last();
        lemma_page_words_sums(pre);
        let st = page_words((Map::empty(), 0), pre);
        assert forall|k: u32| node_named(ws, k) <==> (node_named(pre, k) || word_names(ws.last(), k)) by {
            if node_named(ws, k) {
                let i = choose|i: int| 0 <= i < ws.len() && #[trigger] word_names(ws[i], k);
                if i < pre.len() {
                    assert(pre[i] == ws[i]);
                }
            }
            if node_named(pre, k) {
                let i = choose|i: int| 0 <= i < pre.len() && #[trigger] word_names(pre[i], k);
                assert(pre[i] == ws[i]);
            }
        }
        match page_entry(ws.last()) {
            Some((n, p)) => {
                lemma_node_pages_bound(pre, n);
                if !st.0.contains_key(n) {
                    lemma_node_pages_unnamed(pre, n);
                }
                assert(st.1 + p <= u64::MAX);
                let prev: nat = if st.0.contains_key(n) {
                    st.0[n] as nat
                } else {
                    0
                };
                assert(prev == node_pages(pre, n));
                assert(page_words((Map::empty(), 0), ws).0 == st.0.insert(n, (prev + p) as u64));
            },
            None => {},
        }
    } else {
        assert forall|k: u32| !node_named(ws, k) by {}
    }
}

/// Pages of a node that occurs in several words, on one line or many, are
/// summed, never overwritten: where the text's pages fit in `u64` (so that
/// no word is skipped), each node maps to the sum of its pages over all
/// words, exactly the nodes named in some word are present, and the total
/// is the sum over all words.
pub proof fn lemma_repeated_nodes_summed(content: Seq<char>)
    requires
        all_pages(all_words(lines(content))) <= u64::MAX,
    ensures
        page_distribution(content).1 == all_pages(all_words(lines(content))),
        forall|k: u32|
            #[trigger] page_distribution(content).0.contains_key(k) <==> node_named(
                all_words(lines(content)),
                k,
            ),
        forall|k: u32|
            #[trigger] page_distribution(content).0.contains_key(k) ==> page_distribution(
                content,
            ).0[k] == node_pages(all_words(lines(content)), k),
{
    lemma_page_lines_words(lines(content));
    lemma_page_words_sums(all_words(lines(content)));
}

/// What `parse_numa_maps` promises of its result.
pub open spec fn numa_maps_parsed(content: Seq<char>, pid: u32, name: Seq<char>, r: ProcessNumaInfo) -> bool {
    &&& r.pid == pid
    &&& r.name@ == name
    &&& r.pages_per_node@ == page_distribution(content).0
    &&& r.total_pages == page_distribution(content).1
    &&& r.total_pages == map_sum(r.pages_per_node@)
}

/// Parses a process's page-map text, one memory region per line, each
/// word `N<node>=<pages>` giving pages on a node. Pages of one node are
/// summed over all regions, and `total_pages` is the sum over all nodes.
pub fn parse_numa_maps(content: &str, pid: u32, name: &str) -> (r: ProcessNumaInfo)
    ensures
        numa_maps_parsed(content@, pid, name@, r),
        r.cpu_node.is_none(),
{
    let s = chars_of(content);
    let ls = lines_exec(&s);
    let ghost lv = lines(content@);
    let mut pages: HashMap<u32, u64> = HashMap::new();
    let mut total: u64 = 0;
    let mut i: usize = 0;
    while i < ls.len()
        invariant
            i <= ls.len() == lv.len(),
            lv == ls@.map_values(|v: Vec<char>| v@),
            (pages@, total as nat) == page_lines(lv.take(i as int)),
            pages@.dom().finite(),
            total == map_sum(pages@),
        decreases ls.len() - i,
    {
        assert(lv.take(i + 1).drop_last() =~= lv.take(i as int));
        assert(lv.take(i + 1).last() == ls@[i as int]@);
        let ws = words_exec(&ls[i]);
        let ghost wv = words(ls@[i as int]@);
        let ghost st0 = (pages@, total as nat);
        let mut j: usize = 0;
        while j < ws.len()
            invariant
                j <= ws.len() == wv.len(),
                wv == ws@.map_values(|v: Vec<char>| v@),
                (pages@, total as nat) == page_words(st0, wv.take(j as int)),
                pages@.dom().finite(),
                total == map_sum(pages@),
            decreases ws.len() - j,
        {
            assert(wv.take(j + 1).drop_last() =~= wv.take(j as int));
            assert(wv.take(j + 1).last() == ws@[j as int]@);
            match page_entry_exec(&ws[j]) {
                Some((n, p)) => {
                    if p <= u64::MAX - total {
                        let prev: u64 = match pages.get(&n) {
                            Some(v) => *v,
                            None => 0,
                        };
                        proof {
                            if pages@.contains_key(n) {
                                lemma_map_sum_bounds(pages@, n);
                            }
                            lemma_map_sum_insert(pages@, n, (prev + p) as u64);
                        }
                        pages.insert(n, prev + p);
                        total = total + p;
                    }
                },
                None => {},
            }
            j += 1;
        }
        assert(wv.take(wv.len() as int) =~= wv);
        i += 1;
    }
    assert(lv.take(lv.len() as int) =~= lv);
    ProcessNumaInfo {
        pid,
        name: name.to_owned(),
        pages_per_node: pages,
        total_pages: total,
        cpu_node: None,
    }
}


/// Parsing the same page-map text twice gives the same pages per node and
/// the same total, and the total is the sum of the pages per node.
pub proof fn lemma_numa_maps_parse_repeatable(
    content: Seq<char>,
    pid: u32,
    name: Seq<char>,
    a: ProcessNumaInfo,
    b: ProcessNumaInfo,
)
    requires
        numa_maps_parsed(content, pid, name, a),
        numa_maps_parsed(content, pid, name, b),
    ensures
        a.pages_per_node@ == b.pages_per_node@,
        a.total_pages == b.total_pages,
        b.total_pages == map_sum(b.pages_per_node@),
{
}

/// The node whose CPUs include `cpu`: the first such node of `nodes`.
pub open spec fn node_of_cpu(cpu: i32, nodes: Seq<NumaNode>, n: int) -> Option<u32>
    decreases n,
{
    if n <= 0 || cpu < 0 {
        None
    } else {
        match node_of_cpu(cpu, nodes, n - 1) {
            Some(id) => Some(id),
            None => if nodes[n - 1].cpus@.contains(cpu as u32) {
                Some(nodes[n - 1].id)
            } else {
                None
            },
        }
    }
}

proof fn lemma_node_of_cpu_stable(cpu: i32, nodes: Seq<NumaNode>, n: int, m: int)
    requires
        n <= m,
        node_of_cpu(cpu, nodes, n) is Some,
    ensures
        node_of_cpu(cpu, nodes, m) == node_of_cpu(cpu, nodes, n),
    decreases m - n,
{
    if m > n {
        lemma_node_of_cpu_stable(cpu, nodes, n, m - 1);
    }
}

/// The node a process runs on, from the CPU it last ran on.
pub fn cpu_to_numa_node(cpu: i32, nodes: &[NumaNode]) -> (r: Option<u32>)
    ensures
        r == node_of_cpu(cpu, nodes@, nodes@.len() as int),
{
    if cpu < 0 {
        return None;
    }
    let c = cpu as u32;
    let mut i: usize = 0;
    while i < nodes.len()
        invariant
            i <= nodes@.len(),
            cpu >= 0,
            c == cpu as u32,
            node_of_cpu(cpu, nodes@, i as int) is None,
        decreases nodes.len() - i,
    {
        let cpus = &nodes[i].cpus;
        let mut j: usize = 0;
        while j < cpus.len()
            invariant
                i < nodes@.len(),
                cpus == nodes@[i as int].cpus,
                cpu >= 0,
                c == cpu as u32,
                node_of_cpu(cpu, nodes@, i as int) is None,
                j <= cpus@.len(),
                forall|k: int| 0 <= k < j ==> cpus@[k] != c,
            decreases cpus.len() - j,
        {
            if cpus[j] == c {
                assert(cpus@[j as int] == c);
                assert(cpus@.contains(c));
                proof {
                    lemma_node_of_cpu_stable(cpu, nodes@, i + 1, nodes@.len() as int);
                }
                return Some(nodes[i].id);
            }
            j += 1;
        }
        assert(!cpus@.contains(c));
        i += 1;
    }
    None
}

/// The node id in a topology directory name such as `node3`.
pub open spec fn node_dir_id(name: Seq<char>) -> Option<u32> {
    if starts_with(name, "node"@) {
        parse_u32_spec(name.subrange(4, name.len() as int))
    } else {
        None
    }
}

/// Reads the node id from a topology directory name; other entries give
/// none.
pub fn node_id_of_dir(name: &str) -> (r: Option<u32>)
    ensures
        r == node_dir_id(name@),
{
    let s = chars_of(name);
    let prefix = chars_of("node");
    proof {
        reveal_strlit("node");
    }
    if starts_with_exec(&s, &prefix) {
        parse_u32(&sub_vec(&s, 4, s.len()))
    } else {
        None
    }
}

/// One topology node from its id, meminfo text and CPU list, classified
/// with the accelerator affinity index.
pub fn numa_node_from(id: u32, meminfo: &str, cpulist: &str, gpu_map: &HashMap<u32, u32>) -> (r:
    NumaNode)
    ensures
        r.id == id,
        (r.memory_total_kb, r.memory_free_kb) == meminfo_of(lines(meminfo@)),
        strictly_increasing(r.cpus@),
        forall|x: u32| r.cpus@.contains(x) <==> cpulist_has(cpulist@, x),
        r.node_type == node_kind(r.cpus@, id, gpu_map@),
{
    let (total, free) = parse_numa_meminfo(meminfo);
    let cpus = parse_cpulist(cpulist);
    let mut node = NumaNode {
        id,
        memory_total_kb: total,
        memory_free_kb: free,
        cpus,
        node_type: NumaNodeType::Unknown,
    };
    node.node_type = classify_numa_node(&node, gpu_map);
    node
}

/// Smaller node id first, as a relation.
pub open spec fn id_order() -> spec_fn(NumaNode, NumaNode) -> bool {
    |a: NumaNode, b: NumaNode| a.id < b.id
}

/// Orders topology nodes by id; nodes with equal ids keep their order.
pub fn sort_nodes_by_id(nodes: Vec<NumaNode>) -> (r: Vec<NumaNode>)
    ensures
        forall|i: int, j: int| 0 <= i < j < r@.len() ==> r@[i].id <= r@[j].id,
        exists|perm: Seq<int>|
            #[trigger] permutes(nodes@, r@, perm) && stable_by(r@, perm, id_order()),
{
    let ghost orig = nodes@;
    let ghost prec = id_order();
    let mut v = nodes;
    let mut r: Vec<NumaNode> = Vec::new();
    let ghost mut perm: Seq<int> = Seq::empty();
    while v.len() > 0
        invariant
            prec == id_order(),
            v@ == orig.take(v.len() as int),
            permutes_from(orig, r@, perm, v.len() as int),
            sorted_by(r@, prec),
            stable_by(r@, perm, prec),
        decreases v.len(),
    {
        let x = v.pop().unwrap();
        let ghost m = v.len() as int;
        assert(v@ =~= orig.take(m));
        let mut p: usize = 0;
        while p < r.len() && r[p].id < x.id
            invariant
                p <= r.len(),
                forall|k: int| 0 <= k < p ==> (#[trigger] r@[k]).id < x.id,
            decreases r.len() - p,
        {
            p += 1;
        }
        proof {
            assert forall|q: int| p <= q < r@.len() implies (#[trigger] r@[q]).id >= x.id by {
                assert(!prec(r@[q], r@[p as int]));
            }
            lemma_insert_sorted(orig, r@, perm, m, p as int, prec);
            perm = perm.insert(p as int, m);
        }
        r.insert(p, x);
    }
    proof {
        lemma_permutes_from_start(orig, r@, perm);
        assert forall|i: int, j: int| 0 <= i < j < r@.len() implies r@[i].id <= r@[j].id by {
            assert(!prec(r@[j], r@[i]));
        }
        assert(permutes(orig, r@, perm) && stable_by(r@, perm, prec));
    }
    r
}

} // verus!
