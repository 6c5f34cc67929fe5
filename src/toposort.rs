//! Layered topological sorting (Kahn's peeling with in-degree counts).
use std::collections::HashMap;
use vstd::prelude::*;
use vstd::std_specs::iter::IteratorSpec;
use crate::layering::{
    emitted, is_acyclic, is_cycle, lemma_acyclic_peels, is_layering, layer, lemma_cycle_blocks, lemma_emitted_closed,
    lemma_emitted_subset, lemma_stalled, peels_completely, preds_in, ready, sorted_strictly,
};

verus! {

broadcast use vstd::seq_lib::lemma_seq_contains_after_push, vstd::std_specs::hash::group_hash_axioms;

/// `u` lists `v` among the nodes it points to.
pub open spec fn has_edge(g: Map<u32, Seq<u32>>, u: u32, v: u32) -> bool {
    g.contains_key(u) && g[u].contains(v)
}

/// The keys of an adjacency map together with every node they point to.
pub open spec fn graph_nodes(g: Map<u32, Seq<u32>>) -> Set<u32> {
    Set::new(|v: u32| g.contains_key(v) || exists|u: u32| #[trigger] has_edge(g, u, v))
}

pub open spec fn graph_edges(g: Map<u32, Seq<u32>>) -> Set<(u32, u32)> {
    Set::new(|e: (u32, u32)| has_edge(g, e.0, e.1))
}

/// A cycle in a graph makes its layering fail: peeling never completes,
/// so `toposort_layers` returns `None`.
pub proof fn lemma_cycle_rejected(g: Map<u32, Seq<u32>>, c: Seq<u32>)
    requires
        is_cycle(graph_edges(g), c),
    ensures
        !peels_completely(graph_nodes(g), graph_edges(g)),
{
    assert(graph_edges(g).contains((c[0], c[(0int + 1) % (c.len() as int)])));
    assert(graph_nodes(g).contains(c[0]));
    lemma_cycle_blocks(graph_nodes(g), graph_edges(g), c);
}

/// A graph with finitely many keys has finitely many nodes.
pub proof fn lemma_graph_nodes_finite(g: Map<u32, Seq<u32>>)
    requires
        g.dom().finite(),
    ensures
        graph_nodes(g).finite(),
    decreases g.dom().len(),
{
    if g.dom().len() == 0 {
        assert(graph_nodes(g) =~= Set::<u32>::empty()) by {
            assert forall|v: u32| !graph_nodes(g).contains(v) by {
                if g.dom().contains(v) {
                    vstd::set_lib::lemma_len_subset(set![v], g.dom());
                    assert(set![v].len() == 1) by {
                        assert(set![v] == Set::<u32>::empty().insert(v));
                    }
                }
                if exists|u: u32| #[trigger] has_edge(g, u, v) {
                    let u = choose|u: u32| #[trigger] has_edge(g, u, v);
                    vstd::set_lib::lemma_len_subset(set![u], g.dom());
                    assert(set![u].len() == 1) by {
                        assert(set![u] == Set::<u32>::empty().insert(u));
                    }
                }
            }
        }
    } else {
        let k = g.dom().choose();
        let h = g.remove(k);
        assert(h.dom() == g.dom().remove(k));
        lemma_graph_nodes_finite(h);
        vstd::seq_lib::seq_to_set_is_finite(g[k]);
        let bound = graph_nodes(h).union(set![k]).union(g[k].to_set());
        assert(bound.finite()) by {
            vstd::set::axiom_set_union_finite(graph_nodes(h), set![k]);
            vstd::set::axiom_set_union_finite(graph_nodes(h).union(set![k]), g[k].to_set());
        }
        assert(graph_nodes(g).subset_of(bound)) by {
            assert forall|v: u32| graph_nodes(g).contains(v) implies bound.contains(v) by {
                if v != k && g.contains_key(v) {
                    assert(h.contains_key(v));
                } else if !g.contains_key(v) {
                    let u = choose|u: u32| #[trigger] has_edge(g, u, v);
                    if u != k {
                        assert(has_edge(h, u, v));
                    }
                }
            }
        }
        vstd::set_lib::lemma_len_subset(graph_nodes(g), bound);
    }
}

/// The layering of an acyclic graph succeeds: `toposort_layers` returns
/// its layers.
pub proof fn lemma_acyclic_graph_layers(g: Map<u32, Seq<u32>>)
    requires
        g.dom().finite(),
        is_acyclic(graph_edges(g)),
    ensures
        peels_completely(graph_nodes(g), graph_edges(g)),
{
    lemma_graph_nodes_finite(g);
    assert forall|u: u32, v: u32| #[trigger] graph_edges(g).contains((u, v)) implies graph_nodes(g).contains(u) by {}
    lemma_acyclic_peels(graph_nodes(g), graph_edges(g));
}

/// The adjacency map that a `HashMap` of `Vec`s holds.
pub open spec fn adjacency(graph: Map<u32, Vec<u32>>) -> Map<u32, Seq<u32>> {
    graph.map_values(|v: Vec<u32>| v@)
}

/// The adjacency rows of an indexed graph.
pub open spec fn rows(succ: Seq<Vec<usize>>) -> Seq<Seq<usize>> {
    succ.map_values(|r: Vec<usize>| r@)
}

/// Node `i` of an indexed graph has id `ids[i]` and edges to the nodes
/// listed in `succ[i]`.
pub open spec fn index_edges(ids: Seq<u32>, succ: Seq<Seq<usize>>) -> Set<(u32, u32)> {
    Set::new(
        |e: (u32, u32)|
            exists|i: int, p: int|
                0 <= i < succ.len() && 0 <= p < succ[i].len() && #[trigger] ids[i] == e.0
                    && ids[#[trigger] succ[i][p] as int] == e.1,
    )
}

/// Ids are distinct, and each row lists distinct indices in range.
pub open spec fn index_graph_ok(ids: Seq<u32>, succ: Seq<Seq<usize>>) -> bool {
    &&& ids.no_duplicates()
    &&& succ.len() == ids.len()
    &&& forall|i: int| 0 <= i < succ.len() ==> (#[trigger] succ[i]).no_duplicates()
    &&& forall|i: int, p: int|
        0 <= i < succ.len() && 0 <= p < succ[i].len() ==> #[trigger] succ[i][p] < ids.len()
}

/// How many of the first `m` nodes are unfinished and have an edge to `j`.
pub open spec fn pending(succ: Seq<Seq<usize>>, done: Seq<bool>, j: usize, m: int) -> nat
    decreases m,
{
    if m <= 0 {
        0
    } else {
        pending(succ, done, j, m - 1) + if !done[m - 1] && succ[m - 1].contains(j) {
            1nat
        } else {
            0nat
        }
    }
}

pub open spec fn count_true(s: Seq<bool>, m: int) -> nat
    decreases m,
{
    if m <= 0 {
        0
    } else {
        count_true(s, m - 1) + if s[m - 1] {
            1nat
        } else {
            0nat
        }
    }
}

proof fn lemma_pending_bound(succ: Seq<Seq<usize>>, done: Seq<bool>, j: usize, m: int)
    requires
        m >= 0,
    ensures
        pending(succ, done, j, m) <= m,
    decreases m,
{
    if m > 0 {
        lemma_pending_bound(succ, done, j, m - 1);
    }
}

proof fn lemma_pending_zero(succ: Seq<Seq<usize>>, done: Seq<bool>, j: usize, m: int)
    requires
        0 <= m <= succ.len(),
        m <= done.len(),
    ensures
        pending(succ, done, j, m) == 0 <==> forall|i: int|
            0 <= i < m && !done[i] ==> !(#[trigger] succ[i]).contains(j),
    decreases m,
{
    if m > 0 {
        lemma_pending_zero(succ, done, j, m - 1);
    }
}

proof fn lemma_pending_finish(succ: Seq<Seq<usize>>, done: Seq<bool>, j: usize, m: int, i: int)
    requires
        0 <= i < m <= done.len(),
        m <= succ.len(),
        !done[i],
    ensures
        pending(succ, done.update(i, true), j, m) + (if succ[i].contains(j) {
            1int
        } else {
            0int
        }) == pending(succ, done, j, m),
    decreases m,
{
    if m - 1 > i {
        lemma_pending_finish(succ, done, j, m - 1, i);
    } else {
        assert(pending(succ, done.update(i, true), j, m - 1) == pending(succ, done, j, m - 1)) by {
            lemma_pending_same(succ, done, done.update(i, true), j, m - 1);
        }
    }
}

proof fn lemma_pending_same(succ: Seq<Seq<usize>>, d1: Seq<bool>, d2: Seq<bool>, j: usize, m: int)
    requires
        m <= d1.len(),
        m <= d2.len(),
        forall|i: int| 0 <= i < m ==> d1[i] == d2[i],
    ensures
        pending(succ, d1, j, m) == pending(succ, d2, j, m),
    decreases m,
{
    if m > 0 {
        lemma_pending_same(succ, d1, d2, j, m - 1);
    }
}

proof fn lemma_count_true_bound(s: Seq<bool>, m: int)
    requires
        0 <= m <= s.len(),
    ensures
        count_true(s, m) <= m,
        count_true(s, m) == m <==> forall|i: int| 0 <= i < m ==> s[i],
        (forall|i: int| 0 <= i < m ==> !s[i]) ==> count_true(s, m) == 0,
    decreases m,
{
    if m > 0 {
        lemma_count_true_bound(s, m - 1);
    }
}

proof fn lemma_count_true_flip(s: Seq<bool>, m: int, i: int)
    requires
        0 <= i < m <= s.len(),
        !s[i],
    ensures
        count_true(s.update(i, true), m) == count_true(s, m) + 1,
    decreases m,
{
    if m - 1 > i {
        lemma_count_true_flip(s, m - 1, i);
    } else {
        lemma_count_true_same(s, s.update(i, true), m - 1);
    }
}

proof fn lemma_count_true_same(s1: Seq<bool>, s2: Seq<bool>, m: int)
    requires
        m <= s1.len(),
        m <= s2.len(),
        forall|i: int| 0 <= i < m ==> s1[i] == s2[i],
    ensures
        count_true(s1, m) == count_true(s2, m),
    decreases m,
{
    if m > 0 {
        lemma_count_true_same(s1, s2, m - 1);
    }
}

proof fn lemma_take_next(s: Seq<usize>, p: int)
    requires
        0 <= p < s.len(),
    ensures
        forall|x: usize| #[trigger] s.take(p + 1).contains(x) == (s.take(p).contains(x) || x == s[p]),
{
    assert(s.take(p + 1) == s.take(p).push(s[p]));
    assert forall|x: usize| #[trigger] s.take(p + 1).contains(x) == (s.take(p).contains(x) || x == s[p]) by {
        assert(s.take(p + 1) == s.take(p).push(s[p]));
    }
}

proof fn lemma_take_next_u32(s: Seq<u32>, p: int)
    requires
        0 <= p < s.len(),
    ensures
        forall|x: u32| #[trigger] s.take(p + 1).contains(x) == (s.take(p).contains(x) || x == s[p]),
{
    assert(s.take(p + 1) == s.take(p).push(s[p]));
    assert forall|x: u32| #[trigger] s.take(p + 1).contains(x) == (s.take(p).contains(x) || x == s[p]) by {
        assert(s.take(p + 1) == s.take(p).push(s[p]));
    }
}

/// With `done` marking exactly the emitted nodes, a node has no pending
/// predecessor exactly when all its predecessors were emitted.
proof fn lemma_pending_zero_iff_preds_in(
    ids: Seq<u32>,
    succ: Seq<Seq<usize>>,
    done: Seq<bool>,
    e: Set<u32>,
    j: usize,
)
    requires
        index_graph_ok(ids, succ),
        done.len() == ids.len(),
        forall|i: int| 0 <= i < ids.len() ==> (done[i] <==> e.contains(#[trigger] ids[i])),
        0 <= j < ids.len(),
    ensures
        pending(succ, done, j, ids.len() as int) == 0 <==> preds_in(
            index_edges(ids, succ),
            ids[j as int],
            e,
        ),
{
    let edges = index_edges(ids, succ);
    let n = ids.len() as int;
    let v = ids[j as int];
    lemma_pending_zero(succ, done, j, n);
    if pending(succ, done, j, n) == 0 {
        assert forall|u: u32| #[trigger] edges.contains((u, v)) implies e.contains(u) by {
            let (i, p) = choose|i: int, p: int|
                0 <= i < succ.len() && 0 <= p < succ[i].len() && #[trigger] ids[i] == u
                    && ids[#[trigger] succ[i][p] as int] == v;
            assert(succ[i][p] == j);
            assert(succ[i].contains(j));
        }
    } else {
        let i = choose|i: int| 0 <= i < n && !done[i] && (#[trigger] succ[i]).contains(j);
        let p = choose|p: int| 0 <= p < succ[i].len() && succ[i][p] == j;
        assert(ids[i] == ids[i] && ids[succ[i][p] as int] == v);
        assert(edges.contains((ids[i], v)));
        assert(!e.contains(ids[i]));
    }
}

/// Inserts the distinct ids of `v` into a fresh vector in ascending order.
pub(crate) fn sort_ids(v: &Vec<u32>) -> (r: Vec<u32>)
    requires
        v@.no_duplicates(),
    ensures
        sorted_strictly(r@),
        r@.to_set() == v@.to_set(),
        r@.len() == v@.len(),
{
    let mut r: Vec<u32> = Vec::new();
    for i in 0..v.len()
        invariant
            v@.no_duplicates(),
            sorted_strictly(r@),
            r@.len() == i,
            forall|x: u32| r@.contains(x) <==> v@.take(i as int).contains(x),
    {
        let x = v[i];
        assert(!r@.contains(x)) by {
            if r@.contains(x) {
                let a = choose|a: int| 0 <= a < i && v@.take(i as int)[a] == x;
                assert(v@[a] == v@[i as int]);
            }
        }
        let mut pos: usize = 0;
        while pos < r.len() && r[pos] < x
            invariant
                pos <= r.len(),
                forall|a: int| 0 <= a < pos ==> r@[a] < x,
            decreases r.len() - pos,
        {
            pos = pos + 1;
        }
        let ghost old_r = r@;
        assert forall|a: int| pos <= a < old_r.len() implies old_r[a] > x by {
            assert(old_r[pos as int] >= x);
            assert(old_r[pos as int] != x);
            if a > pos {
                assert(old_r[pos as int] < old_r[a]);
            }
        }
        r.insert(pos, x);
        assert(r@ == old_r.insert(pos as int, x));
        assert(v@.take(i + 1) =~= v@.take(i as int).push(x));
        assert forall|y: u32| r@.contains(y) implies v@.take(i + 1).contains(y) by {
            let a = choose|a: int| 0 <= a < r@.len() && r@[a] == y;
            if a < pos {
                assert(old_r[a] == y);
                assert(old_r.contains(y));
            } else if a > pos {
                assert(old_r[a - 1] == y);
                assert(old_r.contains(y));
            } else {
                assert(y == x);
            }
            if y == x {
                assert(v@.take(i + 1)[i as int] == x);
            } else {
                assert(v@.take(i as int).contains(y));
                let b = choose|b: int| 0 <= b < i && v@.take(i as int)[b] == y;
                assert(v@.take(i + 1)[b] == y);
            }
        }
        assert forall|y: u32| v@.take(i + 1).contains(y) implies r@.contains(y) by {
            if y == x {
                assert(r@[pos as int] == x);
            } else {
                assert(v@.take(i as int).contains(y));
                assert(old_r.contains(y));
                let a = choose|a: int| 0 <= a < old_r.len() && old_r[a] == y;
                if a < pos {
                    assert(r@[a] == y);
                } else {
                    assert(r@[a + 1] == y);
                }
            }
        }
    }
    assert(v@.take(v.len() as int) == v@);
    assert(r@.to_set() =~= v@.to_set());
    r
}

/// The ids of the nodes listed in `current`, in ascending order.
fn layer_ids(ids: &Vec<u32>, current: &Vec<usize>) -> (r: Vec<u32>)
    requires
        ids@.no_duplicates(),
        current@.no_duplicates(),
        forall|q: int| 0 <= q < current.len() ==> current@[q] < ids.len(),
    ensures
        sorted_strictly(r@),
        r@.len() == current.len(),
        forall|x: u32|
            r@.contains(x) <==> exists|q: int| 0 <= q < current.len() && ids@[#[trigger] current@[q] as int] == x,
{
    let mut out: Vec<u32> = Vec::new();
    for q in 0..current.len()
        invariant
            ids@.no_duplicates(),
            current@.no_duplicates(),
            forall|t: int| 0 <= t < current.len() ==> current@[t] < ids.len(),
            out@.len() == q,
            forall|t: int| 0 <= t < q ==> out@[t] == ids@[current@[t] as int],
    {
        out.push(ids[current[q]]);
    }
    assert(out@.no_duplicates()) by {
        assert forall|a: int, b: int| 0 <= a < out@.len() && 0 <= b < out@.len() && a != b implies out@[a] != out@[b] by {
            assert(current@[a] != current@[b]);
        }
    }
    let r = sort_ids(&out);
    assert forall|x: u32|
        r@.contains(x) <==> exists|q: int| 0 <= q < current.len() && ids@[#[trigger] current@[q] as int] == x by {
        assert(r@.to_set().contains(x) == out@.to_set().contains(x));
        if out@.contains(x) {
            let q = choose|q: int| 0 <= q < out@.len() && out@[q] == x;
            assert(ids@[current@[q] as int] == x);
        }
        if exists|q: int| 0 <= q < current.len() && ids@[#[trigger] current@[q] as int] == x {
            let q = choose|q: int| 0 <= q < current.len() && ids@[#[trigger] current@[q] as int] == x;
            assert(out@[q] == x);
        }
    }
    r
}

/// The in-degree of every node before anything is emitted.
fn initial_degrees(n: usize, succ: &Vec<Vec<usize>>) -> (deg: Vec<usize>)
    requires
        succ.len() == n,
        forall|i: int, p: int|
            0 <= i < n && 0 <= p < succ@[i]@.len() ==> #[trigger] succ@[i]@[p] < n,
        forall|i: int| 0 <= i < n ==> (#[trigger] succ@[i]@).no_duplicates(),
    ensures
        deg@.len() == n,
        forall|j: int|
            0 <= j < n ==> deg@[j] == pending(rows(succ@), Seq::new(n as nat, |t: int| false), j as usize, n as int),
{
    let ghost g = rows(succ@);
    let ghost done = Seq::new(n as nat, |t: int| false);
    let mut deg: Vec<usize> = Vec::new();
    for i in 0..n
        invariant
            deg@.len() == i,
            forall|t: int| 0 <= t < i ==> deg@[t] == 0,
    {
        deg.push(0);
    }
    for i in 0..n
        invariant
            g == rows(succ@),
            succ.len() == n,
            forall|i2: int, p: int|
                0 <= i2 < n && 0 <= p < succ@[i2]@.len() ==> #[trigger] succ@[i2]@[p] < n,
            forall|i2: int| 0 <= i2 < n ==> (#[trigger] succ@[i2]@).no_duplicates(),
            done == Seq::new(n as nat, |t: int| false),
            deg@.len() == n,
            forall|j: int| 0 <= j < n ==> deg@[j] == pending(g, done, j as usize, i as int),
    {
        let row = &succ[i];
        assert(row@ == g[i as int]);
        for p in 0..row.len()
            invariant
                g == rows(succ@),
                succ.len() == n,
                forall|i2: int, pj: int|
                    0 <= i2 < n && 0 <= pj < succ@[i2]@.len() ==> #[trigger] succ@[i2]@[pj] < n,
                row@ == succ@[i as int]@,
                row@.no_duplicates(),
                row@ == g[i as int],
                i < n,
                done == Seq::new(n as nat, |t: int| false),
                deg@.len() == n,
                forall|j: int|
                    0 <= j < n ==> deg@[j] == pending(g, done, j as usize, i as int) + (if row@.take(
                        p as int,
                    ).contains(j as usize) {
                        1int
                    } else {
                        0int
                    }),
        {
            let j = row[p];
            assert(!row@.take(p as int).contains(j));
            proof {
                lemma_pending_bound(g, done, j, i as int);
                lemma_take_next(row@, p as int);
            }
            deg.set(j, deg[j] + 1);
        }
        assert(row@.take(row@.len() as int) == row@);
    }
    deg
}

/// The nodes of in-degree zero.
fn zero_degree(deg: &Vec<usize>) -> (current: Vec<usize>)
    ensures
        current@.no_duplicates(),
        forall|q: int| 0 <= q < current.len() ==> current@[q] < deg.len(),
        forall|t: int| 0 <= t < deg.len() ==> (current@.contains(t as usize) <==> deg@[t] == 0),
{
    let mut current: Vec<usize> = Vec::new();
    for j in 0..deg.len()
        invariant
            forall|q: int| 0 <= q < current@.len() ==> current@[q] < j,
            current@.no_duplicates(),
            forall|t: int| 0 <= t < deg.len() ==> (current@.contains(t as usize) <==> (t < j && deg@[t] == 0)),
    {
        if deg[j] == 0 {
            current.push(j);
        }
    }
    current
}

/// Emits the nodes of `current`: marks them done, takes their edges off the
/// in-degrees, and returns the nodes whose in-degree dropped to zero.
fn emit_layer(succ: &Vec<Vec<usize>>, current: &Vec<usize>, deg: &mut Vec<usize>, done: &mut Vec<bool>) -> (next: Vec<usize>)
    requires
        old(deg)@.len() == succ.len(),
        old(done)@.len() == succ.len(),
        forall|i: int, p: int|
            0 <= i < succ.len() && 0 <= p < succ@[i]@.len() ==> #[trigger] succ@[i]@[p] < succ.len(),
        forall|i: int| 0 <= i < succ.len() ==> (#[trigger] succ@[i]@).no_duplicates(),
        current@.no_duplicates(),
        forall|t: int| 0 <= t < current.len() ==> current@[t] < succ.len(),
        forall|t: int| 0 <= t < current.len() ==> !old(done)@[current@[t] as int],
        forall|j: int|
            0 <= j < succ.len() ==> old(deg)@[j] == pending(rows(succ@), old(done)@, j as usize, succ.len() as int),
    ensures
        final(deg)@.len() == succ.len(),
        final(done)@.len() == succ.len(),
        forall|i: int|
            0 <= i < succ.len() ==> (final(done)@[i] <==> (old(done)@[i] || current@.contains(i as usize))),
        forall|j: int|
            0 <= j < succ.len() ==> final(deg)@[j] == pending(rows(succ@), final(done)@, j as usize, succ.len() as int),
        next@.no_duplicates(),
        forall|t: int| 0 <= t < next.len() ==> next@[t] < succ.len(),
        forall|j: int|
            0 <= j < succ.len() ==> (next@.contains(j as usize) <==> (final(deg)@[j] == 0 && old(deg)@[j] > 0)),
        count_true(final(done)@, succ.len() as int) == count_true(old(done)@, succ.len() as int) + current.len(),
{
    let ghost g = rows(succ@);
    let n = succ.len();
    let ghost done0 = done@;
    let ghost deg0 = deg@;
    let mut next: Vec<usize> = Vec::new();
    for q in 0..current.len()
        invariant
            g == rows(succ@),
            n == succ.len(),
            forall|i: int, p: int|
                0 <= i < n && 0 <= p < succ@[i]@.len() ==> #[trigger] succ@[i]@[p] < n,
            forall|i: int| 0 <= i < n ==> (#[trigger] succ@[i]@).no_duplicates(),
            deg@.len() == n,
            done@.len() == n,
            done0.len() == n,
            deg0.len() == n,
            current@.no_duplicates(),
            forall|t: int| 0 <= t < current.len() ==> current@[t] < n,
            forall|t: int| 0 <= t < current.len() ==> !done0[current@[t] as int],
            forall|i: int|
                0 <= i < n ==> (done@[i] <==> (done0[i] || current@.take(q as int).contains(i as usize))),
            forall|j: int| 0 <= j < n ==> deg@[j] == pending(g, done@, j as usize, n as int),
            forall|j: int| 0 <= j < n ==> deg@[j] <= deg0[j],
            next@.no_duplicates(),
            forall|t: int| 0 <= t < next.len() ==> next@[t] < n,
            forall|j: int| 0 <= j < n ==> (next@.contains(j as usize) <==> (deg@[j] == 0 && deg0[j] > 0)),
            count_true(done@, n as int) == count_true(done0, n as int) + q,
    {
        let i = current[q];
        assert(!current@.take(q as int).contains(i));
        let row = &succ[i];
        assert(row@ == g[i as int]);
        for p in 0..row.len()
            invariant
                g == rows(succ@),
                n == succ.len(),
                forall|i2: int, pj: int|
                    0 <= i2 < n && 0 <= pj < succ@[i2]@.len() ==> #[trigger] succ@[i2]@[pj] < n,
                row@ == succ@[i as int]@,
                row@.no_duplicates(),
                row@ == g[i as int],
                i < n,
                !done@[i as int],
                deg@.len() == n,
                done@.len() == n,
                deg0.len() == n,
                forall|j: int|
                    0 <= j < n ==> deg@[j] + (if row@.take(p as int).contains(j as usize) {
                        1int
                    } else {
                        0int
                    }) == pending(g, done@, j as usize, n as int),
                forall|j: int| 0 <= j < n ==> deg@[j] <= deg0[j],
                next@.no_duplicates(),
                forall|t: int| 0 <= t < next.len() ==> next@[t] < n,
                forall|j: int| 0 <= j < n ==> (next@.contains(j as usize) <==> (deg@[j] == 0 && deg0[j] > 0)),
        {
            let j = row[p];
            assert(!row@.take(p as int).contains(j));
            proof {
                lemma_pending_zero(g, done@, j, n as int);
                assert(g[i as int].contains(j));
                lemma_take_next(row@, p as int);
            }
            deg.set(j, deg[j] - 1);
            if deg[j] == 0 {
                next.push(j);
            }
        }
        assert(row@.take(row@.len() as int) == row@);
        proof {
            assert forall|j: int| 0 <= j < n implies deg@[j] == pending(
                g,
                done@.update(i as int, true),
                j as usize,
                n as int,
            ) by {
                lemma_pending_finish(g, done@, j as usize, n as int, i as int);
            }
            lemma_count_true_flip(done@, n as int, i as int);
            lemma_take_next(current@, q as int);
        }
        done.set(i, true);
    }
    assert(current@.take(current.len() as int) == current@);
    next
}

/// One step of peeling, read through `done` and the in-degrees: after layer
/// `k` is emitted, the nodes whose in-degree just dropped to zero form layer
/// `k + 1`.
proof fn lemma_next_layer(
    ids: Seq<u32>,
    g: Seq<Seq<usize>>,
    done0: Seq<bool>,
    done1: Seq<bool>,
    deg0: Seq<usize>,
    deg1: Seq<usize>,
    k: nat,
    j: usize,
)
    requires
        index_graph_ok(ids, g),
        done0.len() == ids.len(),
        done1.len() == ids.len(),
        j < ids.len(),
        forall|i: int|
            0 <= i < ids.len() ==> (done0[i] <==> emitted(ids.to_set(), index_edges(ids, g), k).contains(
                #[trigger] ids[i],
            )),
        forall|i: int|
            0 <= i < ids.len() ==> (done1[i] <==> emitted(ids.to_set(), index_edges(ids, g), k + 1).contains(
                #[trigger] ids[i],
            )),
        deg0[j as int] == pending(g, done0, j, ids.len() as int),
        deg1[j as int] == pending(g, done1, j, ids.len() as int),
    ensures
        (deg1[j as int] == 0 && deg0[j as int] > 0) <==> layer(ids.to_set(), index_edges(ids, g), k + 1).contains(
            ids[j as int],
        ),
{
    let nodes = ids.to_set();
    let edges = index_edges(ids, g);
    let e0 = emitted(nodes, edges, k);
    let e1 = emitted(nodes, edges, (k + 1) as nat);
    let v = ids[j as int];
    lemma_pending_zero_iff_preds_in(ids, g, done1, e1, j);
    lemma_pending_zero_iff_preds_in(ids, g, done0, e0, j);
    assert(nodes.contains(v));
    if e1.contains(v) {
        assert forall|u: u32| #[trigger] edges.contains((u, v)) implies e0.contains(u) by {
            lemma_emitted_closed(nodes, edges, k, v, u);
        }
    } else {
        assert(!ready(nodes, edges, e0).contains(v));
    }
}

/// Peels the indexed graph into layers; `None` when a cycle stops the
/// peeling before every node is out.
pub(crate) fn peel_layers(ids: &Vec<u32>, succ: &Vec<Vec<usize>>) -> (r: Option<Vec<Vec<u32>>>)
    requires
        index_graph_ok(ids@, rows(succ@)),
    ensures
        match r {
            Some(ls) => is_layering(
                ids@.to_set(),
                index_edges(ids@, rows(succ@)),
                ls@.map_values(|l: Vec<u32>| l@),
            ),
            None => !peels_completely(ids@.to_set(), index_edges(ids@, rows(succ@))),
        },
{
    let ghost g = rows(succ@);
    let ghost nodes = ids@.to_set();
    let ghost edges = index_edges(ids@, g);
    let n = ids.len();
    proof {
        assert forall|i: int, p: int|
            0 <= i < n && 0 <= p < succ@[i]@.len() implies #[trigger] succ@[i]@[p] < n by {
            assert(g[i] == succ@[i]@);
        }
        assert forall|i: int| 0 <= i < n implies (#[trigger] succ@[i]@).no_duplicates() by {
            assert(g[i] == succ@[i]@);
        }
    }
    let mut deg = initial_degrees(n, succ);
    let mut done: Vec<bool> = Vec::new();
    for i in 0..n
        invariant
            done@.len() == i,
            forall|t: int| 0 <= t < i ==> !done@[t],
    {
        done.push(false);
    }
    assert(done@ =~= Seq::new(n as nat, |t: int| false));
    let mut current = zero_degree(&deg);
    let ghost mut k: nat = 0;
    proof {
        assert(emitted(nodes, edges, 0) == Set::<u32>::empty());
        lemma_count_true_bound(done@, n as int);
        assert forall|i: int| 0 <= i < n implies (current@.contains(i as usize) <==> layer(
            nodes,
            edges,
            k,
        ).contains(#[trigger] ids@[i])) by {
            lemma_pending_zero_iff_preds_in(ids@, g, done@, Set::empty(), i as usize);
            assert(nodes.contains(ids@[i]));
            assert(deg@[i] == pending(g, done@, i as usize, n as int));
            assert(current@.contains(i as usize) <==> deg@[i] == 0);
            assert(layer(nodes, edges, k) == ready(nodes, edges, Set::<u32>::empty()));
        }
    }
    let mut layers: Vec<Vec<u32>> = Vec::new();
    let mut count: usize = 0;
    while current.len() > 0
        invariant
            n == ids.len(),
            g == rows(succ@),
            nodes == ids@.to_set(),
            edges == index_edges(ids@, g),
            index_graph_ok(ids@, g),
            n == succ.len(),
            forall|i: int, p: int|
                0 <= i < n && 0 <= p < succ@[i]@.len() ==> #[trigger] succ@[i]@[p] < n,
            forall|i: int| 0 <= i < n ==> (#[trigger] succ@[i]@).no_duplicates(),
            deg@.len() == n,
            done@.len() == n,
            forall|i: int| 0 <= i < n ==> (done@[i] <==> emitted(nodes, edges, k).contains(#[trigger] ids@[i])),
            forall|j: int| 0 <= j < n ==> deg@[j] == pending(g, done@, j as usize, n as int),
            current@.no_duplicates(),
            forall|q: int| 0 <= q < current.len() ==> current@[q] < n,
            forall|i: int|
                0 <= i < n ==> (current@.contains(i as usize) <==> layer(nodes, edges, k).contains(
                    #[trigger] ids@[i],
                )),
            layers@.len() == k,
            forall|m: int|
                0 <= m < k ==> {
                    &&& sorted_strictly(#[trigger] layers@[m]@)
                    &&& layers@[m]@.len() > 0
                    &&& layers@[m]@.to_set() == layer(nodes, edges, m as nat)
                },
            count == count_true(done@, n as int),
            count <= n,
        decreases n - count,
    {
        let out = layer_ids(ids, &current);
        proof {
            lemma_emitted_subset(nodes, edges, (k + 1) as nat);
            assert forall|x: u32| out@.to_set().contains(x) <==> layer(nodes, edges, k).contains(x) by {
                if layer(nodes, edges, k).contains(x) {
                    let i = choose|i: int| 0 <= i < n && ids@[i] == x;
                    assert(current@.contains(i as usize));
                    let q = choose|q: int| 0 <= q < current.len() && current@[q] == i as usize;
                    assert(ids@[current@[q] as int] == x);
                }
            }
            assert(out@.to_set() =~= layer(nodes, edges, k));
            assert forall|t: int| 0 <= t < current.len() implies !done@[current@[t] as int] by {
                let i = current@[t] as int;
                assert(current@.contains(i as usize));
                assert(layer(nodes, edges, k).contains(ids@[i]));
            }
        }
        layers.push(out);
        let ghost done0 = done@;
        let ghost deg0 = deg@;
        let next = emit_layer(succ, &current, &mut deg, &mut done);
        proof {
            lemma_count_true_bound(done@, n as int);
            let e0 = emitted(nodes, edges, k);
            let e1 = emitted(nodes, edges, (k + 1) as nat);
            assert(e1 == e0.union(ready(nodes, edges, e0)));
            assert forall|i: int| 0 <= i < n implies (done@[i] <==> e1.contains(#[trigger] ids@[i])) by {
            }
            assert forall|i: int| 0 <= i < n implies (next@.contains(i as usize) <==> layer(
                nodes,
                edges,
                (k + 1) as nat,
            ).contains(#[trigger] ids@[i])) by {
                lemma_next_layer(ids@, g, done0, done@, deg0, deg@, k, i as usize);
            }
            k = k + 1;
        }
        count = count + current.len();
        current = next;
    }
    proof {
        lemma_emitted_subset(nodes, edges, k);
        assert(layer(nodes, edges, k) =~= Set::<u32>::empty()) by {
            assert forall|v: u32| !layer(nodes, edges, k).contains(v) by {
                if layer(nodes, edges, k).contains(v) {
                    let i = choose|i: int| 0 <= i < n && ids@[i] == v;
                    assert(current@.contains(i as usize));
                }
            }
        }
        lemma_count_true_bound(done@, n as int);
    }
    if count == n {
        proof {
            assert(emitted(nodes, edges, k) =~= nodes) by {
                assert forall|v: u32| nodes.contains(v) implies emitted(nodes, edges, k).contains(v) by {
                    let i = choose|i: int| 0 <= i < n && ids@[i] == v;
                    assert(done@[i]);
                }
            }
            let ls = layers@.map_values(|l: Vec<u32>| l@);
            assert forall|m: int| 0 <= m < ls.len() implies {
                &&& sorted_strictly(#[trigger] ls[m])
                &&& ls[m].len() > 0
                &&& ls[m].to_set() == layer(nodes, edges, m as nat)
            } by {
                assert(ls[m] == layers@[m]@);
            }
        }
        Some(layers)
    } else {
        proof {
            let i = choose|i: int| 0 <= i < n && !done@[i];
            assert(!emitted(nodes, edges, k).contains(ids@[i]));
            assert(nodes.contains(ids@[i]));
            lemma_stalled(nodes, edges, k);
        }
        None
    }
}

/// An indexed graph under construction, with `index` giving each id's
/// position.
pub open spec fn table_ok(ids: Seq<u32>, succ: Seq<Seq<usize>>, index: Map<u32, usize>) -> bool {
    &&& ids.no_duplicates()
    &&& succ.len() == ids.len()
    &&& forall|x: u32| #[trigger] index.contains_key(x) <==> ids.contains(x)
    &&& forall|i: int| 0 <= i < ids.len() ==> index[#[trigger] ids[i]] == i
    &&& forall|i: int| 0 <= i < succ.len() ==> (#[trigger] succ[i]).no_duplicates()
    &&& forall|i: int, p: int|
        0 <= i < succ.len() && 0 <= p < succ[i].len() ==> #[trigger] succ[i][p] < ids.len()
}

/// The position of `x`, appending it with no edges if it is new.
pub(crate) fn intern(ids: &mut Vec<u32>, succ: &mut Vec<Vec<usize>>, index: &mut HashMap<u32, usize>, x: u32) -> (r: usize)
    requires
        table_ok(old(ids)@, rows(old(succ)@), old(index)@),
    ensures
        table_ok(final(ids)@, rows(final(succ)@), final(index)@),
        r < final(ids)@.len(),
        final(ids)@[r as int] == x,
        final(succ)@.len() == final(ids)@.len(),
        old(ids)@.contains(x) ==> final(ids)@ == old(ids)@ && rows(final(succ)@) == rows(old(succ)@),
        !old(ids)@.contains(x) ==> final(ids)@ == old(ids)@.push(x) && rows(final(succ)@) == rows(
            old(succ)@,
        ).push(Seq::empty()),
{
    match index.get(&x) {
        Some(i) => {
            let i = *i;
            assert(ids@[i as int] == x) by {
                let t = choose|t: int| 0 <= t < ids@.len() && ids@[t] == x;
            }
            i
        },
        None => {
            let i = ids.len();
            let ghost old_ids = ids@;
            let ghost old_succ = rows(succ@);
            ids.push(x);
            succ.push(Vec::new());
            index.insert(x, i);
            proof {
                assert(rows(succ@) == old_succ.push(Seq::<usize>::empty()));
                assert forall|i2: int| 0 <= i2 < ids@.len() implies index@[#[trigger] ids@[i2]] == i2 by {
                    if i2 < old_ids.len() {
                        assert(old_ids.contains(old_ids[i2]));
                    }
                }
                assert forall|i2: int, p: int|
                    0 <= i2 < rows(succ@).len() && 0 <= p < rows(succ@)[i2].len() implies #[trigger] rows(succ@)[i2][p] < ids@.len() by {
                    assert(rows(succ@)[i2] == if i2 < old_succ.len() { old_succ[i2] } else { Seq::empty() });
                }
                assert forall|i2: int| 0 <= i2 < rows(succ@).len() implies (#[trigger] rows(succ@)[i2]).no_duplicates() by {
                    assert(rows(succ@)[i2] == if i2 < old_succ.len() { old_succ[i2] } else { Seq::empty() });
                }
            }
            i
        },
    }
}

/// Whether `row` lists `j`.
fn lists(row: &Vec<usize>, j: usize) -> (r: bool)
    ensures
        r == row@.contains(j),
{
    for q in 0..row.len()
        invariant
            forall|t: int| 0 <= t < q ==> row@[t] != j,
    {
        if row[q] == j {
            return true;
        }
    }
    false
}

/// Layered topological sort of the graph whose edges go from each key to
/// the nodes it lists. The first layer holds the nodes that nothing points
/// to; each later layer, the nodes all of whose predecessors are out. Each
/// layer is in ascending order. `None` when a cycle blocks the peeling.
pub fn toposort_layers(graph: &HashMap<u32, Vec<u32>>) -> (r: Option<Vec<Vec<u32>>>)
    ensures
        match r {
            Some(ls) => is_layering(
                graph_nodes(adjacency(graph@)),
                graph_edges(adjacency(graph@)),
                ls@.map_values(|l: Vec<u32>| l@),
            ),
            None => !peels_completely(graph_nodes(adjacency(graph@)), graph_edges(adjacency(graph@))),
        },
{
    let ghost gm = adjacency(graph@);
    // The keys, in the map's own order.
    let ghost kvs = graph.iter().remaining();
    let mut keys: Vec<u32> = Vec::new();
    for kv in it: graph.iter()
        invariant
            it.seq() == kvs,
            keys@.len() == it.index(),
            forall|t: int| 0 <= t < it.index() ==> keys@[t] == *kvs[t].0,
    {
        let (k, _deps) = kv;
        keys.push(*k);
    }
    proof {
        assert forall|x: u32| graph@.dom().contains(x) implies keys@.contains(x) by {
            assert(kvs.contains((&x, &graph@[x])));
            let t = choose|t: int| 0 <= t < kvs.len() && kvs[t] == (&x, &graph@[x]);
            assert(keys@[t] == x);
        }
        assert forall|t: int| 0 <= t < keys@.len() implies graph@.contains_key(#[trigger] keys@[t]) by {
            assert(graph@.contains_key(*kvs[t].0));
        }
        assert(keys@.no_duplicates()) by {
            assert forall|a: int, b: int| 0 <= a < keys@.len() && 0 <= b < keys@.len() && a != b implies keys@[a] != keys@[b] by {
                assert(kvs[a] != kvs[b]);
                assert(graph@[*kvs[a].0] == *kvs[a].1);
                assert(graph@[*kvs[b].0] == *kvs[b].1);
            }
        }
    }
    let mut ids: Vec<u32> = Vec::new();
    let mut succ: Vec<Vec<usize>> = Vec::new();
    let mut index: HashMap<u32, usize> = HashMap::new();
    assert(rows(succ@) =~= Seq::<Seq<usize>>::empty());
    for t in 0..keys.len()
        invariant
            keys@.no_duplicates(),
            forall|t2: int| 0 <= t2 < keys@.len() ==> graph@.contains_key(#[trigger] keys@[t2]),
            table_ok(ids@, rows(succ@), index@),
            ids@.len() == t,
            forall|t2: int| 0 <= t2 < t ==> ids@[t2] == keys@[t2],
            forall|i: int| 0 <= i < ids@.len() ==> succ@[i]@.len() == 0,
    {
        assert(!ids@.contains(keys@[t as int])) by {
            if ids@.contains(keys@[t as int]) {
                let a = choose|a: int| 0 <= a < t && ids@[a] == keys@[t as int];
                assert(keys@[a] == keys@[t as int]);
            }
        }
        let ghost old_succ = succ@;
        let _ = intern(&mut ids, &mut succ, &mut index, keys[t]);
        assert forall|i: int| 0 <= i < ids@.len() implies succ@[i]@.len() == 0 by {
            assert(rows(succ@)[i] == succ@[i]@);
            if i < old_succ.len() {
                assert(rows(old_succ)[i] == old_succ[i]@);
            }
        }
    }
    proof {
        assert(ids@ =~= keys@);
        assert forall|x: u32| #[trigger] ids@.contains(x) <==> graph@.contains_key(x) by {
            if ids@.contains(x) {
                let a = choose|a: int| 0 <= a < ids@.len() && ids@[a] == x;
                assert(graph@.contains_key(keys@[a]));
            }
        }
    }
    let nk = keys.len();
    for i in 0..nk
        invariant
            nk == keys@.len(),
            keys@.no_duplicates(),
            forall|t2: int| 0 <= t2 < nk ==> graph@.contains_key(#[trigger] keys@[t2]),
            gm == adjacency(graph@),
            table_ok(ids@, rows(succ@), index@),
            ids@.len() >= nk,
            forall|t2: int| 0 <= t2 < nk ==> ids@[t2] == keys@[t2],
            forall|i2: int| i <= i2 < ids@.len() ==> succ@[i2]@.len() == 0,
            forall|i2: int, p: int|
                0 <= i2 < i && 0 <= p < succ@[i2]@.len() ==> gm[ids@[i2]].contains(ids@[#[trigger] succ@[i2]@[p] as int]),
            forall|i2: int, x: u32|
                0 <= i2 < i && #[trigger] gm[ids@[i2]].contains(x) ==> exists|p: int|
                    0 <= p < succ@[i2]@.len() && ids@[#[trigger] succ@[i2]@[p] as int] == x,
            forall|x: u32|
                #[trigger] ids@.contains(x) <==> (graph@.contains_key(x) || exists|i2: int|
                    0 <= i2 < i && #[trigger] gm[keys@[i2]].contains(x)),
    {
        let deps = match graph.get(&keys[i]) {
            Some(d) => d,
            None => {
                assert(false);
                return None;
            },
        };
        assert(deps@ == gm[ids@[i as int]]);
        let mut row: Vec<usize> = Vec::new();
        assert(deps@.take(0) =~= Seq::<u32>::empty());
        let mut p: usize = 0;
        while p < deps.len()
            invariant
                p <= deps@.len(),
                deps@ == gm[ids@[i as int]],
                i < nk,
                nk == keys@.len(),
                keys@.no_duplicates(),
                forall|t2: int| 0 <= t2 < nk ==> graph@.contains_key(#[trigger] keys@[t2]),
                gm == adjacency(graph@),
                table_ok(ids@, rows(succ@), index@),
                ids@.len() >= nk,
                forall|t2: int| 0 <= t2 < nk ==> ids@[t2] == keys@[t2],
                forall|i2: int| i <= i2 < ids@.len() ==> succ@[i2]@.len() == 0,
                forall|i2: int, pj: int|
                    0 <= i2 < i && 0 <= pj < succ@[i2]@.len() ==> gm[ids@[i2]].contains(ids@[#[trigger] succ@[i2]@[pj] as int]),
                forall|i2: int, x: u32|
                    0 <= i2 < i && #[trigger] gm[ids@[i2]].contains(x) ==> exists|pj: int|
                        0 <= pj < succ@[i2]@.len() && ids@[#[trigger] succ@[i2]@[pj] as int] == x,
                forall|x: u32|
                    #[trigger] ids@.contains(x) <==> (graph@.contains_key(x) || (exists|i2: int|
                        0 <= i2 < i && #[trigger] gm[keys@[i2]].contains(x)) || deps@.take(p as int).contains(x)),
                row@.no_duplicates(),
                forall|q: int| 0 <= q < row@.len() ==> #[trigger] row@[q] < ids@.len(),
                forall|q: int| 0 <= q < row@.len() ==> deps@.contains(ids@[#[trigger] row@[q] as int]),
                forall|x: u32| #[trigger] deps@.take(p as int).contains(x) ==> exists|q: int|
                    0 <= q < row@.len() && ids@[#[trigger] row@[q] as int] == x,
            decreases deps@.len() - p,
        {
            let ghost old_ids = ids@;
            let ghost old_succ = succ@;
            let j = intern(&mut ids, &mut succ, &mut index, deps[p]);
            proof {
                lemma_take_next_u32(deps@, p as int);
                assert forall|i2: int| 0 <= i2 < succ@.len() implies #[trigger] succ@[i2]@ == (if i2 < old_succ.len() {
                    old_succ[i2]@
                } else {
                    Seq::empty()
                }) by {
                    assert(rows(succ@)[i2] == succ@[i2]@);
                    if i2 < old_succ.len() {
                        assert(rows(old_succ)[i2] == old_succ[i2]@);
                    }
                }
                assert forall|i2: int, pj: int|
                    0 <= i2 < i && 0 <= pj < succ@[i2]@.len() implies gm[ids@[i2]].contains(
                        ids@[#[trigger] succ@[i2]@[pj] as int],
                    ) by {
                    assert(rows(old_succ)[i2] == old_succ[i2]@);
                    assert(old_succ[i2]@[pj] < old_ids.len());
                }
                assert forall|i2: int, x: u32|
                    0 <= i2 < i && #[trigger] gm[ids@[i2]].contains(x) implies exists|pj: int|
                        0 <= pj < succ@[i2]@.len() && ids@[#[trigger] succ@[i2]@[pj] as int] == x by {
                    assert(gm[old_ids[i2]].contains(x));
                    let pj = choose|pj: int|
                        0 <= pj < old_succ[i2]@.len() && old_ids[#[trigger] old_succ[i2]@[pj] as int] == x;
                    assert(rows(old_succ)[i2] == old_succ[i2]@);
                    assert(old_succ[i2]@[pj] < old_ids.len());
                    assert(ids@[succ@[i2]@[pj] as int] == x);
                }
            }
            let ghost old_row = row@;
            if !lists(&row, j) {
                row.push(j);
            }
            proof {
                assert forall|x: u32| #[trigger] deps@.take(p + 1).contains(x) implies exists|q: int|
                    0 <= q < row@.len() && ids@[#[trigger] row@[q] as int] == x by {
                    if x == deps@[p as int] {
                        assert(row@.contains(j));
                        let q = choose|q: int| 0 <= q < row@.len() && row@[q] == j;
                        assert(ids@[row@[q] as int] == x);
                    } else {
                        assert(deps@.take(p as int).contains(x));
                        assert(exists|q: int| 0 <= q < old_row.len() && old_ids[#[trigger] old_row[q] as int] == x);
                        let q = choose|q: int| 0 <= q < old_row.len() && old_ids[#[trigger] old_row[q] as int] == x;
                        assert(row@[q] == old_row[q]);
                        assert(ids@[row@[q] as int] == x);
                    }
                }
            }
            p = p + 1;
        }
        assert(deps@.take(deps@.len() as int) == deps@);
        let ghost old_succ = succ@;
        let ghost new_row = row@;
        succ.set(i, row);
        proof {
            assert forall|i2: int| 0 <= i2 < succ@.len() implies #[trigger] succ@[i2]@ == (if i2 == i {
                new_row
            } else {
                old_succ[i2]@
            }) by {}
            assert forall|i2: int| 0 <= i2 < rows(succ@).len() implies (#[trigger] rows(succ@)[i2]).no_duplicates() by {
                assert(rows(succ@)[i2] == succ@[i2]@);
                if i2 != i {
                    assert(rows(old_succ)[i2] == old_succ[i2]@);
                }
            }
            assert forall|i2: int, x: u32|
                0 <= i2 < i + 1 && #[trigger] gm[ids@[i2]].contains(x) implies exists|p: int|
                    0 <= p < succ@[i2]@.len() && ids@[#[trigger] succ@[i2]@[p] as int] == x by {
                if i2 == i {
                    assert(deps@.take(deps@.len() as int).contains(x));
                    let q = choose|q: int| 0 <= q < new_row.len() && ids@[#[trigger] new_row[q] as int] == x;
                    assert(succ@[i2]@[q] == new_row[q]);
                } else {
                    let q = choose|q: int| 0 <= q < old_succ[i2]@.len() && ids@[#[trigger] old_succ[i2]@[q] as int] == x;
                    assert(succ@[i2]@[q] == old_succ[i2]@[q]);
                }
            }
            assert forall|i2: int, p: int|
                0 <= i2 < rows(succ@).len() && 0 <= p < rows(succ@)[i2].len() implies #[trigger] rows(succ@)[i2][p] < ids@.len() by {
                assert(rows(succ@)[i2] == succ@[i2]@);
                if i2 != i {
                    assert(rows(old_succ)[i2] == old_succ[i2]@);
                }
            }
            assert forall|x: u32|
                #[trigger] ids@.contains(x) <==> (graph@.contains_key(x) || exists|i2: int|
                    0 <= i2 < i + 1 && #[trigger] gm[keys@[i2]].contains(x)) by {
                if exists|i2: int| 0 <= i2 < i + 1 && #[trigger] gm[keys@[i2]].contains(x) {
                    let i2 = choose|i2: int| 0 <= i2 < i + 1 && #[trigger] gm[keys@[i2]].contains(x);
                    if i2 == i {
                        assert(deps@.take(deps@.len() as int).contains(x));
                    }
                }
                if deps@.contains(x) {
                    assert(gm[keys@[i as int]].contains(x));
                }
            }
        }
    }
    proof {
        let n = ids@.len();
        let g = rows(succ@);
        assert forall|x: u32| #[trigger] ids@.to_set().contains(x) <==> graph_nodes(gm).contains(x) by {
            if exists|i2: int| 0 <= i2 < nk && #[trigger] gm[keys@[i2]].contains(x) {
                let i2 = choose|i2: int| 0 <= i2 < nk && #[trigger] gm[keys@[i2]].contains(x);
                assert(has_edge(gm, keys@[i2], x));
            }
            if exists|u: u32| #[trigger] has_edge(gm, u, x) {
                let u = choose|u: u32| #[trigger] has_edge(gm, u, x);
                assert(keys@.contains(u));
                let i2 = choose|i2: int| 0 <= i2 < nk && keys@[i2] == u;
                assert(gm[keys@[i2]].contains(x));
            }
        }
        assert(ids@.to_set() =~= graph_nodes(gm));
        assert forall|e: (u32, u32)| #[trigger] graph_edges(gm).contains(e) <==> index_edges(ids@, g).contains(e) by {
            let (u, v) = e;
            if has_edge(gm, u, v) {
                assert(keys@.contains(u));
                let i2 = choose|i2: int| 0 <= i2 < nk && keys@[i2] == u;
                assert(gm[ids@[i2]].contains(v));
                let p = choose|p: int| 0 <= p < succ@[i2]@.len() && ids@[#[trigger] succ@[i2]@[p] as int] == v;
                assert(g[i2] == succ@[i2]@);
                assert(ids@[i2] == u && ids@[g[i2][p] as int] == v);
            }
            if index_edges(ids@, g).contains(e) {
                let (i2, p) = choose|i2: int, p: int|
                    0 <= i2 < g.len() && 0 <= p < g[i2].len() && #[trigger] ids@[i2] == u
                        && ids@[#[trigger] g[i2][p] as int] == v;
                assert(g[i2] == succ@[i2]@);
                assert(i2 < nk);
                assert(gm[ids@[i2]].contains(v));
            }
        }
        assert(graph_edges(gm) =~= index_edges(ids@, g));
    }
    peel_layers(&ids, &succ)
}

} // verus!
