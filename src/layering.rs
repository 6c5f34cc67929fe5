//! What a layering of a precedence relation is.
//!
//! A relation is given by a set of nodes and a set of edges; an edge
//! `(u, v)` says that `u` must be emitted in a layer strictly before `v`.
//! Layers are peeled off one at a time: each layer holds every node not yet
//! emitted whose predecessors have all been emitted.
use vstd::prelude::*;

verus! {

/// Every predecessor of `v` lies in `done`.
pub open spec fn preds_in(edges: Set<(u32, u32)>, v: u32, done: Set<u32>) -> bool {
    forall|u: u32| #[trigger] edges.contains((u, v)) ==> done.contains(u)
}

/// The nodes not in `done` whose predecessors all lie in `done`.
pub open spec fn ready(nodes: Set<u32>, edges: Set<(u32, u32)>, done: Set<u32>) -> Set<u32> {
    nodes.filter(|v: u32| !done.contains(v) && preds_in(edges, v, done))
}

/// The nodes emitted by the first `k` layers.
pub open spec fn emitted(nodes: Set<u32>, edges: Set<(u32, u32)>, k: nat) -> Set<u32>
    decreases k,
{
    if k == 0 {
        Set::empty()
    } else {
        let e = emitted(nodes, edges, (k - 1) as nat);
        e.union(ready(nodes, edges, e))
    }
}

/// Layer `k`: the nodes that become ready once the first `k` layers are out.
pub open spec fn layer(nodes: Set<u32>, edges: Set<(u32, u32)>, k: nat) -> Set<u32> {
    ready(nodes, edges, emitted(nodes, edges, k))
}

/// Peeling reaches every node (it fails exactly when a cycle blocks it).
pub open spec fn peels_completely(nodes: Set<u32>, edges: Set<(u32, u32)>) -> bool {
    exists|n: nat| #[trigger] emitted(nodes, edges, n) == nodes
}

pub open spec fn sorted_strictly(s: Seq<u32>) -> bool {
    forall|a: int, b: int| 0 <= a < b < s.len() ==> s[a] < s[b]
}

/// `layers` is the complete layering, each layer in ascending order.
pub open spec fn is_layering(nodes: Set<u32>, edges: Set<(u32, u32)>, layers: Seq<Seq<u32>>) -> bool {
    &&& forall|k: int|
        0 <= k < layers.len() ==> {
            &&& sorted_strictly(#[trigger] layers[k])
            &&& layers[k].len() > 0
            &&& layers[k].to_set() == layer(nodes, edges, k as nat)
        }
    &&& emitted(nodes, edges, layers.len()) == nodes
}

/// A closed walk along the edges.
pub open spec fn is_cycle(edges: Set<(u32, u32)>, c: Seq<u32>) -> bool {
    &&& c.len() > 0
    &&& forall|i: int| 0 <= i < c.len() ==> #[trigger] edges.contains((c[i], c[(i + 1) % (c.len() as int)]))
}

pub proof fn lemma_emitted_subset(nodes: Set<u32>, edges: Set<(u32, u32)>, k: nat)
    ensures
        emitted(nodes, edges, k).subset_of(nodes),
    decreases k,
{
    if k > 0 {
        lemma_emitted_subset(nodes, edges, (k - 1) as nat);
    }
}

pub proof fn lemma_emitted_monotone(nodes: Set<u32>, edges: Set<(u32, u32)>, j: nat, k: nat)
    requires
        j <= k,
    ensures
        emitted(nodes, edges, j).subset_of(emitted(nodes, edges, k)),
    decreases k - j,
{
    if j < k {
        lemma_emitted_monotone(nodes, edges, j, (k - 1) as nat);
    }
}

/// Whatever was emitted by the first `k + 1` layers had its predecessors
/// emitted by the first `k`.
pub proof fn lemma_emitted_closed(nodes: Set<u32>, edges: Set<(u32, u32)>, k: nat, v: u32, u: u32)
    requires
        emitted(nodes, edges, k + 1).contains(v),
        edges.contains((u, v)),
    ensures
        emitted(nodes, edges, k).contains(u),
    decreases k,
{
    let e = emitted(nodes, edges, k);
    if !ready(nodes, edges, e).contains(v) {
        assert(e.contains(v));
        if k > 0 {
            lemma_emitted_closed(nodes, edges, (k - 1) as nat, v, u);
            lemma_emitted_monotone(nodes, edges, (k - 1) as nat, k);
        }
    }
}

/// Once no node is ready, nothing more is ever emitted.
pub proof fn lemma_emitted_stuck(nodes: Set<u32>, edges: Set<(u32, u32)>, k: nat, m: nat)
    requires
        layer(nodes, edges, k) == Set::<u32>::empty(),
        k <= m,
    ensures
        emitted(nodes, edges, m) == emitted(nodes, edges, k),
    decreases m - k,
{
    if k < m {
        lemma_emitted_stuck(nodes, edges, k, (m - 1) as nat);
        assert(emitted(nodes, edges, m) =~= emitted(nodes, edges, k));
    }
}

/// When peeling stalls before reaching every node, it never completes.
pub proof fn lemma_stalled(nodes: Set<u32>, edges: Set<(u32, u32)>, k: nat)
    requires
        layer(nodes, edges, k) == Set::<u32>::empty(),
        emitted(nodes, edges, k) != nodes,
    ensures
        !peels_completely(nodes, edges),
{
    assert forall|n: nat| #[trigger] emitted(nodes, edges, n) != nodes by {
        if n >= k {
            lemma_emitted_stuck(nodes, edges, k, n);
        } else {
            lemma_emitted_monotone(nodes, edges, n, k);
            lemma_emitted_subset(nodes, edges, k);
            if emitted(nodes, edges, n) == nodes {
                assert(emitted(nodes, edges, k) =~= nodes);
            }
        }
    }
}

proof fn lemma_cycle_never_emitted(nodes: Set<u32>, edges: Set<(u32, u32)>, c: Seq<u32>, k: nat, i: int)
    requires
        is_cycle(edges, c),
        0 <= i < c.len(),
    ensures
        !emitted(nodes, edges, k).contains(c[i]),
    decreases k,
{
    if k > 0 {
        let e = emitted(nodes, edges, (k - 1) as nat);
        let j = if i == 0 { c.len() - 1 } else { i - 1 };
        let n = c.len() as int;
        assert((j + 1) % n == i) by {
            if i == 0 {
                assert(n % n == 0) by (nonlinear_arith)
                    requires
                        n > 0,
                ;
            } else {
                assert(i % n == i) by (nonlinear_arith)
                    requires
                        0 <= i < n,
                ;
            }
        }
        assert(edges.contains((c[j], c[(j + 1) % (c.len() as int)])));
        lemma_cycle_never_emitted(nodes, edges, c, (k - 1) as nat, i);
        lemma_cycle_never_emitted(nodes, edges, c, (k - 1) as nat, j);
        assert(!ready(nodes, edges, e).contains(c[i]));
    }
}

/// A cycle through a node blocks peeling: the layering cannot complete.
pub proof fn lemma_cycle_blocks(nodes: Set<u32>, edges: Set<(u32, u32)>, c: Seq<u32>)
    requires
        is_cycle(edges, c),
        nodes.contains(c[0]),
    ensures
        !peels_completely(nodes, edges),
{
    assert forall|n: nat| #[trigger] emitted(nodes, edges, n) != nodes by {
        lemma_cycle_never_emitted(nodes, edges, c, n, 0);
    }
}

/// Emitted nodes are exactly those of the earlier layers.
pub proof fn lemma_emitted_is_union(nodes: Set<u32>, edges: Set<(u32, u32)>, k: nat, v: u32)
    ensures
        emitted(nodes, edges, k).contains(v) <==> exists|j: nat| j < k && #[trigger] layer(nodes, edges, j).contains(v),
    decreases k,
{
    if k > 0 {
        lemma_emitted_is_union(nodes, edges, (k - 1) as nat, v);
        if layer(nodes, edges, (k - 1) as nat).contains(v) {
            assert(emitted(nodes, edges, k).contains(v));
        }
        if exists|j: nat| j < k && #[trigger] layer(nodes, edges, j).contains(v) {
            let j = choose|j: nat| j < k && #[trigger] layer(nodes, edges, j).contains(v);
            if j < k - 1 {
                assert(emitted(nodes, edges, (k - 1) as nat).contains(v));
            }
        }
    }
}

/// Layers are disjoint: a node of layer `j` is emitted before any later
/// layer, which excludes it.
proof fn lemma_layers_disjoint(nodes: Set<u32>, edges: Set<(u32, u32)>, j: nat, k: nat, v: u32)
    requires
        j < k,
        layer(nodes, edges, j).contains(v),
    ensures
        !layer(nodes, edges, k).contains(v),
{
    assert(emitted(nodes, edges, j + 1).contains(v));
    lemma_emitted_monotone(nodes, edges, j + 1, k);
}

/// A complete layering holds every node exactly once, holds nothing else,
/// and places each node in a later layer than all its predecessors.
pub proof fn lemma_layering_complete(nodes: Set<u32>, edges: Set<(u32, u32)>, layers: Seq<Seq<u32>>)
    requires
        is_layering(nodes, edges, layers),
    ensures
        forall|v: u32| nodes.contains(v) ==> exists|k: int| 0 <= k < layers.len() && #[trigger] layers[k].contains(v),
        forall|k: int, v: u32| 0 <= k < layers.len() && #[trigger] layers[k].contains(v) ==> nodes.contains(v),
        forall|k: int| 0 <= k < layers.len() ==> (#[trigger] layers[k]).no_duplicates(),
        forall|j: int, k: int, v: u32|
            0 <= j < layers.len() && 0 <= k < layers.len() && #[trigger] layers[j].contains(v)
                && #[trigger] layers[k].contains(v) ==> j == k,
        forall|u: u32, v: u32, k: int|
            0 <= k < layers.len() && #[trigger] edges.contains((u, v)) && #[trigger] layers[k].contains(v)
                ==> exists|j: int| 0 <= j < k && #[trigger] layers[j].contains(u),
{
    let n = layers.len();
    assert forall|k: int| 0 <= k < n implies (#[trigger] layers[k]).no_duplicates() by {
        assert(sorted_strictly(layers[k]));
    }
    assert forall|k: int, v: u32| 0 <= k < n && #[trigger] layers[k].contains(v) implies nodes.contains(v) by {
        assert(layers[k].to_set().contains(v));
    }
    assert forall|v: u32| nodes.contains(v) implies exists|k: int| 0 <= k < n && #[trigger] layers[k].contains(v) by {
        assert(emitted(nodes, edges, n).contains(v));
        lemma_emitted_is_union(nodes, edges, n, v);
        let j = choose|j: nat| j < n && #[trigger] layer(nodes, edges, j).contains(v);
        assert(layers[j as int].to_set().contains(v));
    }
    assert forall|j: int, k: int, v: u32|
        0 <= j < n && 0 <= k < n && #[trigger] layers[j].contains(v) && #[trigger] layers[k].contains(v) implies j == k by {
        assert(layers[j].to_set().contains(v));
        assert(layers[k].to_set().contains(v));
        if j < k {
            lemma_layers_disjoint(nodes, edges, j as nat, k as nat, v);
        } else if k < j {
            lemma_layers_disjoint(nodes, edges, k as nat, j as nat, v);
        }
    }
    assert forall|u: u32, v: u32, k: int|
        0 <= k < n && #[trigger] edges.contains((u, v)) && #[trigger] layers[k].contains(v) implies exists|j: int|
            0 <= j < k && #[trigger] layers[j].contains(u) by {
        assert(layers[k].to_set().contains(v));
        assert(emitted(nodes, edges, k as nat).contains(u));
        lemma_emitted_is_union(nodes, edges, k as nat, u);
        let j = choose|j: nat| j < k && #[trigger] layer(nodes, edges, j).contains(u);
        assert(layers[j as int].to_set().contains(u));
    }
}

/// Two complete layerings of the same relation are the same: the layering
/// is determined by the relation.
pub proof fn lemma_layering_unique(nodes: Set<u32>, edges: Set<(u32, u32)>, a: Seq<Seq<u32>>, b: Seq<Seq<u32>>)
    requires
        is_layering(nodes, edges, a),
        is_layering(nodes, edges, b),
    ensures
        a == b,
{
    if a.len() < b.len() {
        assert(layer(nodes, edges, a.len()) =~= Set::<u32>::empty());
        assert(b[a.len() as int].to_set().contains(b[a.len() as int][0]));
    } else if b.len() < a.len() {
        assert(layer(nodes, edges, b.len()) =~= Set::<u32>::empty());
        assert(a[b.len() as int].to_set().contains(a[b.len() as int][0]));
    }
    assert forall|k: int| 0 <= k < a.len() implies a[k] == b[k] by {
        lemma_sorted_same_set(a[k], b[k]);
    }
    assert(a =~= b);
}

/// Two strictly ascending sequences with the same elements are equal.
pub proof fn lemma_sorted_same_set(s: Seq<u32>, t: Seq<u32>)
    requires
        sorted_strictly(s),
        sorted_strictly(t),
        s.to_set() == t.to_set(),
    ensures
        s == t,
    decreases s.len() + t.len(),
{
    if s.len() == 0 || t.len() == 0 {
        if s.len() > 0 {
            assert(s.to_set().contains(s[0]));
        }
        if t.len() > 0 {
            assert(t.to_set().contains(t[0]));
        }
        assert(s =~= t);
    } else {
        // The first elements are the minima, hence equal.
        assert(s.to_set().contains(s[0]));
        assert(t.to_set().contains(t[0]));
        assert(t.contains(s[0]));
        assert(s.contains(t[0]));
        let i = choose|i: int| 0 <= i < t.len() && t[i] == s[0];
        let j = choose|j: int| 0 <= j < s.len() && s[j] == t[0];
        assert(s[0] == t[0]) by {
            if i > 0 {
                assert(t[0] < t[i]);
                if j > 0 {
                    assert(s[0] < s[j]);
                }
            }
        }
        let s1 = s.drop_first();
        let t1 = t.drop_first();
        assert(s1.to_set() =~= t1.to_set()) by {
            assert forall|x: u32| s1.to_set().contains(x) implies t1.to_set().contains(x) by {
                let a = choose|a: int| 0 <= a < s1.len() && s1[a] == x;
                assert(s[a + 1] == x);
                assert(s.to_set().contains(x));
                let b = choose|b: int| 0 <= b < t.len() && t[b] == x;
                assert(b != 0);
                assert(t1[b - 1] == x);
            }
            assert forall|x: u32| t1.to_set().contains(x) implies s1.to_set().contains(x) by {
                let b = choose|b: int| 0 <= b < t1.len() && t1[b] == x;
                assert(t[b + 1] == x);
                assert(t.to_set().contains(x));
                let a = choose|a: int| 0 <= a < s.len() && s[a] == x;
                assert(a != 0);
                assert(s1[a - 1] == x);
            }
        }
        lemma_sorted_same_set(s1, t1);
        assert(s =~= t) by {
            assert forall|k: int| 0 <= k < s.len() implies s[k] == t[k] by {
                if k > 0 {
                    assert(s[k] == s1[k - 1]);
                    assert(t[k] == t1[k - 1]);
                }
            }
        }
    }
}

/// A single chain `c[0] -> c[1] -> ... -> c[L-1]` of distinct nodes: layer
/// `k` is `c[k]` one way and `c[L-1-k]` the other, so the inputs-first layer
/// `k` is the outputs-first layer `L-1-k`.
pub proof fn lemma_chain_duality(c: Seq<u32>, edges: Set<(u32, u32)>, rev: Set<(u32, u32)>, k: nat)
    requires
        c.no_duplicates(),
        k < c.len(),
        forall|u: u32, v: u32|
            #[trigger] edges.contains((u, v)) <==> exists|i: int| 0 <= i < c.len() - 1 && #[trigger] c[i] == u && c[i + 1] == v,
        forall|u: u32, v: u32| #[trigger] rev.contains((u, v)) <==> edges.contains((v, u)),
    ensures
        layer(c.to_set(), edges, k) == set![c[k as int]],
        layer(c.to_set(), rev, k) == set![c[c.len() - 1 - k]],
        layer(c.to_set(), rev, k) == layer(c.to_set(), edges, (c.len() - 1 - k) as nat),
{
    let r = c.reverse();
    assert(r.no_duplicates()) by {
        assert forall|a: int, b: int| 0 <= a < r.len() && 0 <= b < r.len() && a != b implies r[a] != r[b] by {
            assert(r[a] == c[c.len() - 1 - a]);
            assert(r[b] == c[c.len() - 1 - b]);
        }
    }
    assert forall|u: u32, v: u32|
        #[trigger] rev.contains((u, v)) <==> exists|i: int| 0 <= i < r.len() - 1 && #[trigger] r[i] == u && r[i + 1] == v by {
        if rev.contains((u, v)) {
            let i = choose|i: int| 0 <= i < c.len() - 1 && #[trigger] c[i] == v && c[i + 1] == u;
            let j = c.len() - 2 - i;
            assert(r[j] == c[c.len() - 1 - j]);
            assert(r[j + 1] == c[c.len() - 2 - j]);
        }
        if exists|i: int| 0 <= i < r.len() - 1 && #[trigger] r[i] == u && r[i + 1] == v {
            let i = choose|i: int| 0 <= i < r.len() - 1 && #[trigger] r[i] == u && r[i + 1] == v;
            let j = c.len() - 2 - i;
            assert(c[j] == r[r.len() - 1 - j]);
            assert(c[j + 1] == r[r.len() - 2 - j]);
            assert(edges.contains((v, u)));
        }
    }
    assert(r.to_set() =~= c.to_set()) by {
        assert forall|x: u32| r.to_set().contains(x) implies c.to_set().contains(x) by {
            let a = choose|a: int| 0 <= a < r.len() && r[a] == x;
            assert(c[c.len() - 1 - a] == x);
        }
        assert forall|x: u32| c.to_set().contains(x) implies r.to_set().contains(x) by {
            let a = choose|a: int| 0 <= a < c.len() && c[a] == x;
            assert(r[c.len() - 1 - a] == x);
        }
    }
    lemma_chain_layer(c, edges, k);
    lemma_chain_layer(r, rev, k);
    lemma_chain_layer(c, edges, (c.len() - 1 - k) as nat);
}

/// Along a chain, the first `k` layers hold its first `k` nodes, and layer
/// `k` holds `c[k]` alone.
proof fn lemma_chain_layer(c: Seq<u32>, edges: Set<(u32, u32)>, k: nat)
    requires
        c.no_duplicates(),
        k < c.len(),
        forall|u: u32, v: u32|
            #[trigger] edges.contains((u, v)) <==> exists|i: int| 0 <= i < c.len() - 1 && #[trigger] c[i] == u && c[i + 1] == v,
    ensures
        emitted(c.to_set(), edges, k) == c.take(k as int).to_set(),
        layer(c.to_set(), edges, k) == set![c[k as int]],
    decreases k,
{
    let nodes = c.to_set();
    if k > 0 {
        lemma_chain_layer(c, edges, (k - 1) as nat);
        assert(c.take(k as int).to_set() =~= c.take(k - 1).to_set().insert(c[k - 1])) by {
            assert(c.take(k as int) == c.take(k - 1).push(c[k - 1]));
            c.take(k - 1).lemma_push_to_set_commute(c[k - 1]);
        }
        assert(emitted(nodes, edges, k) =~= c.take(k as int).to_set());
    } else {
        assert(c.take(0).to_set() =~= Set::<u32>::empty());
    }
    let e = c.take(k as int).to_set();
    assert(emitted(nodes, edges, k) == e);
    assert forall|x: u32| #[trigger] ready(nodes, edges, e).contains(x) <==> x == c[k as int] by {
        if x == c[k as int] {
            assert(nodes.contains(x));
            assert(!e.contains(x)) by {
                if e.contains(x) {
                    let a = choose|a: int| 0 <= a < k && c.take(k as int)[a] == x;
                    assert(c[a] == c[k as int]);
                }
            }
            assert forall|u: u32| #[trigger] edges.contains((u, x)) implies e.contains(u) by {
                let i = choose|i: int| 0 <= i < c.len() - 1 && #[trigger] c[i] == u && c[i + 1] == x;
                assert(i + 1 == k);
                assert(c.take(k as int)[i] == u);
            }
        }
        if ready(nodes, edges, e).contains(x) {
            let a = choose|a: int| 0 <= a < c.len() && c[a] == x;
            if a < k {
                assert(c.take(k as int)[a] == x);
            } else if a > k {
                assert(edges.contains((c[a - 1], c[a])));
                assert(e.contains(c[a - 1]));
                let b = choose|b: int| 0 <= b < k && c.take(k as int)[b] == c[a - 1];
                assert(c[b] == c[a - 1]);
            }
        }
    }
    assert(layer(nodes, edges, k) =~= set![c[k as int]]);
}

/// No closed walk along the edges.
pub open spec fn is_acyclic(edges: Set<(u32, u32)>) -> bool {
    forall|c: Seq<u32>| !is_cycle(edges, c)
}

/// While no layer is empty, each one emits at least one new node.
proof fn lemma_emitted_len(nodes: Set<u32>, edges: Set<(u32, u32)>, k: nat)
    requires
        nodes.finite(),
        forall|j: nat| j < k ==> #[trigger] layer(nodes, edges, j) != Set::<u32>::empty(),
    ensures
        emitted(nodes, edges, k).len() >= k,
        emitted(nodes, edges, k).finite(),
    decreases k,
{
    lemma_emitted_subset(nodes, edges, k);
    vstd::set_lib::lemma_len_subset(emitted(nodes, edges, k), nodes);
    if k > 0 {
        let j = (k - 1) as nat;
        lemma_emitted_len(nodes, edges, j);
        let e = emitted(nodes, edges, j);
        let l = layer(nodes, edges, j);
        assert(l != Set::<u32>::empty());
        assert(exists|x: u32| l.contains(x)) by {
            if forall|x: u32| !l.contains(x) {
                assert(l =~= Set::<u32>::empty());
            }
        }
        let x = choose|x: u32| l.contains(x);
        vstd::set_lib::lemma_len_subset(l, nodes);
        vstd::set_lib::lemma_len_subset(set![x], l);
        assert(set![x].len() == 1) by {
            assert(set![x] == Set::<u32>::empty().insert(x));
        }
        assert(e.disjoint(l));
        vstd::set_lib::lemma_set_disjoint_lens(e, l);
        assert(emitted(nodes, edges, k) == e + l);
    }
}

/// A walk backwards from `start` that stays outside `done`.
pub open spec fn back_walk(edges: Set<(u32, u32)>, done: Set<u32>, start: u32, i: nat) -> u32
    decreases i,
{
    if i == 0 {
        start
    } else {
        let w = back_walk(edges, done, start, (i - 1) as nat);
        choose|u: u32| edges.contains((u, w)) && !done.contains(u)
    }
}

proof fn lemma_back_walk(nodes: Set<u32>, edges: Set<(u32, u32)>, done: Set<u32>, start: u32, i: nat)
    requires
        nodes.contains(start),
        !done.contains(start),
        forall|u: u32, v: u32| #[trigger] edges.contains((u, v)) ==> nodes.contains(u),
        forall|v: u32| nodes.contains(v) && !done.contains(v) ==> exists|u: u32| #[trigger] edges.contains((u, v)) && !done.contains(u),
    ensures
        nodes.contains(back_walk(edges, done, start, i)),
        !done.contains(back_walk(edges, done, start, i)),
        edges.contains((back_walk(edges, done, start, i + 1), back_walk(edges, done, start, i))),
    decreases i,
{
    if i > 0 {
        lemma_back_walk(nodes, edges, done, start, (i - 1) as nat);
    }
    let w = back_walk(edges, done, start, i);
    assert(exists|u: u32| #[trigger] edges.contains((u, w)) && !done.contains(u));
}

/// Peeling an acyclic relation over finitely many nodes reaches every node,
/// so the layering of any acyclic graph succeeds.
pub proof fn lemma_acyclic_peels(nodes: Set<u32>, edges: Set<(u32, u32)>)
    requires
        nodes.finite(),
        forall|u: u32, v: u32| #[trigger] edges.contains((u, v)) ==> nodes.contains(u),
        is_acyclic(edges),
    ensures
        peels_completely(nodes, edges),
{
    let n = nodes.len();
    // Some layer up to the n-th is empty.
    assert(exists|k: nat| k <= n && #[trigger] layer(nodes, edges, k) == Set::<u32>::empty()) by {
        if forall|k: nat| k <= n ==> #[trigger] layer(nodes, edges, k) != Set::<u32>::empty() {
            assert forall|j: nat| j < n + 1 implies #[trigger] layer(nodes, edges, j) != Set::<u32>::empty() by {}
            lemma_emitted_len(nodes, edges, n + 1);
            lemma_emitted_subset(nodes, edges, n + 1);
            vstd::set_lib::lemma_len_subset(emitted(nodes, edges, n + 1), nodes);
        }
    }
    let k = choose|k: nat| k <= n && #[trigger] layer(nodes, edges, k) == Set::<u32>::empty();
    let e = emitted(nodes, edges, k);
    lemma_emitted_subset(nodes, edges, k);
    if e != nodes {
        assert(exists|v: u32| nodes.contains(v) && !e.contains(v)) by {
            if forall|v: u32| nodes.contains(v) ==> e.contains(v) {
                assert(e =~= nodes);
            }
        }
        let start = choose|v: u32| nodes.contains(v) && !e.contains(v);
        assert forall|v: u32| nodes.contains(v) && !e.contains(v) implies exists|u: u32|
            #[trigger] edges.contains((u, v)) && !e.contains(u) by {
            assert(!layer(nodes, edges, k).contains(v));
            assert(!preds_in(edges, v, e));
        }
        let w = Seq::new(n + 1, |i: int| back_walk(edges, e, start, i as nat));
        assert forall|i: int| 0 <= i < w.len() implies nodes.contains(#[trigger] w[i]) by {
            lemma_back_walk(nodes, edges, e, start, i as nat);
        }
        // Pigeonhole: the walk repeats a node.
        assert(!w.no_duplicates()) by {
            if w.no_duplicates() {
                w.unique_seq_to_set();
                assert(w.to_set().subset_of(nodes));
                vstd::set_lib::lemma_len_subset(w.to_set(), nodes);
            }
        }
        let (i, j) = choose|i: int, j: int| 0 <= i < w.len() && 0 <= j < w.len() && i != j && w[i] == w[j];
        let (a, b) = if i < j { (i, j) } else { (j, i) };
        let c = Seq::new((b - a) as nat, |t: int| w[b - t]);
        assert(is_cycle(edges, c)) by {
            let len = b - a;
            assert forall|t: int| 0 <= t < c.len() implies #[trigger] edges.contains((c[t], c[(t + 1) % (c.len() as int)])) by {
                lemma_back_walk(nodes, edges, e, start, (b - t - 1) as nat);
                if t + 1 < len {
                    assert((t + 1) % len == t + 1) by (nonlinear_arith)
                        requires 0 <= t + 1 < len;
                } else {
                    assert((t + 1) % len == 0) by (nonlinear_arith)
                        requires t + 1 == len, len > 0;
                    assert(w[b - t - 1] == w[a]);
                }
            }
        }
        assert(!is_cycle(edges, c));
    }
    assert(emitted(nodes, edges, k) == nodes);
}

} // verus!
