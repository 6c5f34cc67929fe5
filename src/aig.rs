//! The graph store: nodes keyed by id, and the ordered input, latch and
//! output lists.
use std::collections::HashMap;
use vstd::prelude::*;
use vstd::std_specs::iter::IteratorSpec;
use crate::layering::{is_acyclic, is_cycle, is_layering, lemma_acyclic_peels, peels_completely, sorted_strictly};
use crate::node::{AigAndGate, AigInput, AigLatch, Node};
use crate::reference::Ref;
use crate::toposort::{
    adjacency, graph_edges, graph_nodes, lemma_acyclic_graph_layers, lemma_graph_nodes_finite, sort_ids,
    toposort_layers,
};

verus! {

broadcast use vstd::std_specs::hash::group_hash_axioms, vstd::seq_lib::lemma_seq_contains_after_push;

/// And-Inverter Graph.
pub struct Aig {
    nodes: HashMap<u32, Node>,
    inputs: Vec<u32>,
    latches: Vec<u32>,
    outputs: Vec<Ref>,
}

/// What an `Aig` holds.
pub struct AigView {
    pub nodes: Map<u32, Node>,
    pub inputs: Seq<u32>,
    pub latches: Seq<u32>,
    pub outputs: Seq<Ref>,
}

impl View for Aig {
    type V = AigView;

    closed spec fn view(&self) -> AigView {
        AigView {
            nodes: self.nodes@,
            inputs: self.inputs@,
            latches: self.latches@,
            outputs: self.outputs@,
        }
    }
}

/// The structural invariants: every stored node sits under its own non-zero
/// id, and the input and latch lists name exactly the input and latch
/// nodes, each once.
pub open spec fn wf_view(v: AigView) -> bool {
    &&& v.nodes.dom().finite()
    &&& forall|k: u32| #[trigger] v.nodes.contains_key(k) ==> k != 0 && v.nodes[k].spec_id() == k && !(v.nodes[k] is Zero)
    &&& v.inputs.no_duplicates()
    &&& v.latches.no_duplicates()
    &&& forall|k: u32|
        v.nodes.contains_key(k) ==> ((#[trigger] v.nodes[k] is Input) <==> v.inputs.contains(k))
    &&& forall|k: u32| v.nodes.contains_key(k) ==> ((#[trigger] v.nodes[k] is Latch) <==> v.latches.contains(k))
    &&& forall|i: int| 0 <= i < v.inputs.len() ==> v.nodes.contains_key(#[trigger] v.inputs[i])
    &&& forall|i: int| 0 <= i < v.latches.len() ==> v.nodes.contains_key(#[trigger] v.latches[i])
}

/// Whether some node, or the constant at id 0, has this id.
pub open spec fn has_id(v: AigView, id: u32) -> bool {
    id == 0 || v.nodes.contains_key(id)
}

/// The keys of a node map, each once.
pub(crate) fn keys_of(m: &HashMap<u32, Node>) -> (r: Vec<u32>)
    ensures
        r@.no_duplicates(),
        forall|x: u32| #[trigger] r@.contains(x) <==> m@.contains_key(x),
{
    let ghost kvs = m.iter().remaining();
    let mut keys: Vec<u32> = Vec::new();
    for kv in it: m.iter()
        invariant
            it.seq() == kvs,
            keys@.len() == it.index(),
            forall|t: int| 0 <= t < it.index() ==> keys@[t] == *kvs[t].0,
    {
        let (k, _node) = kv;
        keys.push(*k);
    }
    proof {
        assert forall|x: u32| m@.contains_key(x) implies keys@.contains(x) by {
            assert(kvs.contains((&x, &m@[x])));
            let t = choose|t: int| 0 <= t < kvs.len() && kvs[t] == (&x, &m@[x]);
            assert(keys@[t] == x);
        }
        assert forall|x: u32| keys@.contains(x) implies m@.contains_key(x) by {
            let t = choose|t: int| 0 <= t < keys@.len() && keys@[t] == x;
            assert(m@.contains_key(*kvs[t].0));
        }
        assert forall|a: int, b: int| 0 <= a < keys@.len() && 0 <= b < keys@.len() && a != b implies keys@[a] != keys@[b] by {
            assert(kvs[a] != kvs[b]);
            assert(m@[*kvs[a].0] == *kvs[a].1);
            assert(m@[*kvs[b].0] == *kvs[b].1);
        }
    }
    keys
}

impl Aig {
    pub open spec fn wf(&self) -> bool {
        wf_view(self@)
    }

    /// A graph from its parts; the parts must already form a well-formed
    /// graph without latches.
    pub fn new(nodes: HashMap<u32, Node>, inputs: Vec<u32>, outputs: Vec<Ref>) -> (r: Aig)
        requires
            wf_view(AigView { nodes: nodes@, inputs: inputs@, latches: Seq::empty(), outputs: outputs@ }),
        ensures
            r@ == (AigView { nodes: nodes@, inputs: inputs@, latches: Seq::empty(), outputs: outputs@ }),
            r.wf(),
    {
        let r = Aig { nodes, inputs, latches: Vec::new(), outputs };
        assert(r@.latches =~= Seq::<u32>::empty());
        r
    }

    pub fn inputs(&self) -> (r: &[u32])
        ensures
            r@ == self@.inputs,
    {
        self.inputs.as_slice()
    }

    pub fn latches(&self) -> (r: &[u32])
        ensures
            r@ == self@.latches,
    {
        self.latches.as_slice()
    }

    pub fn outputs(&self) -> (r: &[Ref])
        ensures
            r@ == self@.outputs,
    {
        self.outputs.as_slice()
    }

    pub fn nodes(&self) -> (r: &HashMap<u32, Node>)
        ensures
            r@ == self@.nodes,
    {
        &self.nodes
    }

    /// The AND gates, in ascending order of id.
    pub fn and_gates(&self) -> (r: Vec<AigAndGate>)
        requires
            self.wf(),
        ensures
            sorted_strictly(r@.map_values(|g: AigAndGate| g.id)),
            forall|t: int| 0 <= t < r@.len() ==> self@.nodes.contains_key(#[trigger] r@[t].id)
                && self@.nodes[r@[t].id] == Node::AndGate(r@[t]),
            forall|k: u32| #[trigger] self@.nodes.contains_key(k) && self@.nodes[k] is AndGate ==> exists|t: int|
                0 <= t < r@.len() && #[trigger] r@[t].id == k,
    {
        let all = keys_of(&self.nodes);
        let mut ids: Vec<u32> = Vec::new();
        let mut t: usize = 0;
        while t < all.len()
            invariant
                t <= all@.len(),
                self.wf(),
                all@.no_duplicates(),
                forall|x: u32| #[trigger] all@.contains(x) <==> self@.nodes.contains_key(x),
                ids@.no_duplicates(),
                forall|x: u32| #[trigger] ids@.contains(x) <==> exists|t2: int|
                    0 <= t2 < t && all@[t2] == x && self@.nodes[x] is AndGate,
                forall|x: u32| ids@.contains(x) ==> self@.nodes.contains_key(x) && self@.nodes[x] is AndGate,
            decreases all@.len() - t,
        {
            let id = all[t];
            assert(all@.contains(id));
            if self.is_gate(id) {
                assert(!ids@.contains(id)) by {
                    if ids@.contains(id) {
                        let t2 = choose|t2: int| 0 <= t2 < t && all@[t2] == id && self@.nodes[id] is AndGate;
                    }
                }
                ids.push(id);
            }
            t = t + 1;
        }
        let sorted = sort_ids(&ids);
        let mut r: Vec<AigAndGate> = Vec::new();
        for t in 0..sorted.len()
            invariant
                self.wf(),
                sorted_strictly(sorted@),
                sorted@.to_set() == ids@.to_set(),
                forall|x: u32| ids@.contains(x) ==> self@.nodes.contains_key(x) && self@.nodes[x] is AndGate,
                r@.len() == t,
                forall|t2: int| 0 <= t2 < t ==> r@[t2].id == sorted@[t2],
                forall|t2: int| 0 <= t2 < t ==> self@.nodes.contains_key(#[trigger] r@[t2].id)
                    && self@.nodes[r@[t2].id] == Node::AndGate(r@[t2]),
        {
            let id = sorted[t];
            assert(sorted@.to_set().contains(id));
            assert(ids@.contains(id));
            match self.nodes.get(&id) {
                Some(Node::AndGate(g)) => {
                    r.push(*g);
                },
                _ => {
                    assert(false);
                },
            }
        }
        proof {
            assert(r@.map_values(|g: AigAndGate| g.id) =~= sorted@);
            assert forall|k: u32| #[trigger] self@.nodes.contains_key(k) && self@.nodes[k] is AndGate implies exists|t: int|
                0 <= t < r@.len() && #[trigger] r@[t].id == k by {
                assert(all@.contains(k));
                let t = choose|t: int| 0 <= t < all@.len() && all@[t] == k;
                assert(ids@.contains(k));
                assert(sorted@.to_set().contains(k));
                let t2 = choose|t2: int| 0 <= t2 < sorted@.len() && sorted@[t2] == k;
                assert(r@[t2].id == k);
            }
        }
        r
    }

    pub fn is_input(&self, id: u32) -> (r: bool)
        ensures
            r == (self@.nodes.contains_key(id) && self@.nodes[id] is Input),
    {
        match self.nodes.get(&id) {
            Some(Node::Input(_)) => true,
            _ => false,
        }
    }

    pub fn is_gate(&self, id: u32) -> (r: bool)
        ensures
            r == (self@.nodes.contains_key(id) && self@.nodes[id] is AndGate),
    {
        match self.nodes.get(&id) {
            Some(Node::AndGate(_)) => true,
            _ => false,
        }
    }

    pub fn is_latch(&self, id: u32) -> (r: bool)
        ensures
            r == (self@.nodes.contains_key(id) && self@.nodes[id] is Latch),
    {
        match self.nodes.get(&id) {
            Some(Node::Latch(_)) => true,
            _ => false,
        }
    }

    /// Id 0, the constants' id, is always present.
    pub fn contains(&self, id: u32) -> (r: bool)
        ensures
            r == has_id(self@, id),
    {
        if id == 0 {
            return true;
        }
        self.nodes.contains_key(&id)
    }

    /// The node with this id; id 0 gives the synthesized constant node.
    pub fn node(&self, id: u32) -> (r: Node)
        requires
            has_id(self@, id),
        ensures
            r == (if id == 0 {
                Node::Zero
            } else {
                self@.nodes[id]
            }),
    {
        if id == 0 {
            return Node::Zero;
        }
        match self.nodes.get(&id) {
            Some(n) => *n,
            None => Node::Zero,
        }
    }

    pub fn input(&self, id: u32) -> (r: AigInput)
        requires
            self@.nodes.contains_key(id),
            self@.nodes[id] is Input,
        ensures
            self@.nodes[id] == Node::Input(r),
    {
        match self.nodes.get(&id) {
            Some(Node::Input(input)) => *input,
            _ => AigInput { id },
        }
    }

    pub fn gate(&self, id: u32) -> (r: AigAndGate)
        requires
            self@.nodes.contains_key(id),
            self@.nodes[id] is AndGate,
        ensures
            self@.nodes[id] == Node::AndGate(r),
    {
        match self.nodes.get(&id) {
            Some(Node::AndGate(gate)) => *gate,
            _ => AigAndGate { id, args: [Ref::from_raw(0), Ref::from_raw(0)] },
        }
    }

    pub fn latch(&self, id: u32) -> (r: AigLatch)
        requires
            self@.nodes.contains_key(id),
            self@.nodes[id] is Latch,
        ensures
            self@.nodes[id] == Node::Latch(r),
    {
        match self.nodes.get(&id) {
            Some(Node::Latch(latch)) => *latch,
            _ => AigLatch { id, next: Ref::from_raw(0) },
        }
    }

    /// Registers a new input; its id must be new and non-zero.
    pub fn add_input(&mut self, id: u32)
        requires
            old(self).wf(),
            !has_id(old(self)@, id),
        ensures
            final(self).wf(),
            final(self)@ == (AigView {
                nodes: old(self)@.nodes.insert(id, Node::Input(AigInput { id })),
                inputs: old(self)@.inputs.push(id),
                ..old(self)@
            }),
    {
        let ghost v = self@;
        self.nodes.insert(id, Node::input(id));
        self.inputs.push(id);
        proof {
            lemma_insert_keeps_wf(v, self@, id);
        }
    }

    /// Registers a new latch; its id must be new and non-zero.
    pub fn add_latch(&mut self, id: u32, next: Ref)
        requires
            old(self).wf(),
            !has_id(old(self)@, id),
        ensures
            final(self).wf(),
            final(self)@ == (AigView {
                nodes: old(self)@.nodes.insert(id, Node::Latch(AigLatch { id, next })),
                latches: old(self)@.latches.push(id),
                ..old(self)@
            }),
    {
        let ghost v = self@;
        self.nodes.insert(id, Node::latch(id, next));
        self.latches.push(id);
        proof {
            lemma_insert_keeps_wf(v, self@, id);
        }
    }

    /// Appends an output; whether its id resolves is checked when the
    /// graph is layered.
    pub fn add_output(&mut self, output: Ref)
        ensures
            final(self)@ == (AigView { outputs: old(self)@.outputs.push(output), ..old(self)@ }),
    {
        self.outputs.push(output);
    }

    /// Adds an AND gate under a new non-zero id. Its arguments may name
    /// nodes that are added later.
    pub fn add_and_gate(&mut self, id: u32, args: [Ref; 2])
        requires
            old(self).wf(),
            !has_id(old(self)@, id),
        ensures
            final(self).wf(),
            final(self)@ == (AigView {
                nodes: old(self)@.nodes.insert(id, Node::AndGate(AigAndGate { id, args })),
                ..old(self)@
            }),
    {
        let ghost v = self@;
        self.nodes.insert(id, Node::and_gate(id, args));
        proof {
            lemma_insert_keeps_wf(v, self@, id);
        }
    }
}

/// Adding a node under a new id, and listing it if it is an input or a
/// latch, keeps the invariants.
proof fn lemma_insert_keeps_wf(v: AigView, w: AigView, id: u32)
    requires
        wf_view(v),
        !has_id(v, id),
        w.nodes.contains_key(id),
        w.nodes[id].spec_id() == id,
        !(w.nodes[id] is Zero),
        w.nodes == v.nodes.insert(id, w.nodes[id]),
        w.inputs == (if w.nodes[id] is Input { v.inputs.push(id) } else { v.inputs }),
        w.latches == (if w.nodes[id] is Latch { v.latches.push(id) } else { v.latches }),
    ensures
        wf_view(w),
{
    broadcast use vstd::seq_lib::lemma_seq_contains_after_push;
    assert forall|i: int| 0 <= i < w.inputs.len() implies w.nodes.contains_key(#[trigger] w.inputs[i]) by {
        if i < v.inputs.len() {
            assert(v.nodes.contains_key(v.inputs[i]));
        }
    }
    assert forall|i: int| 0 <= i < w.latches.len() implies w.nodes.contains_key(#[trigger] w.latches[i]) by {
        if i < v.latches.len() {
            assert(v.nodes.contains_key(v.latches[i]));
        }
    }
    assert forall|k: u32| w.nodes.contains_key(k) implies ((#[trigger] w.nodes[k] is Input) <==> w.inputs.contains(k)) by {
        if k != id && v.inputs.contains(k) {
        }
        if k != id {
            assert(v.nodes[k] is Input <==> v.inputs.contains(k));
        }
        if v.inputs.contains(id) {
            let i = choose|i: int| 0 <= i < v.inputs.len() && v.inputs[i] == id;
            assert(v.nodes.contains_key(v.inputs[i]));
        }
    }
    assert forall|k: u32| w.nodes.contains_key(k) implies ((#[trigger] w.nodes[k] is Latch) <==> w.latches.contains(k)) by {
        if k != id {
            assert(v.nodes[k] is Latch <==> v.latches.contains(k));
        }
        if v.latches.contains(id) {
            let i = choose|i: int| 0 <= i < v.latches.len() && v.latches[i] == id;
            assert(v.nodes.contains_key(v.latches[i]));
        }
    }
    if w.nodes[id] is Input {
        assert(!v.inputs.contains(id)) by {
            if v.inputs.contains(id) {
                let i = choose|i: int| 0 <= i < v.inputs.len() && v.inputs[i] == id;
                assert(v.nodes.contains_key(v.inputs[i]));
            }
        }
    }
    if w.nodes[id] is Latch {
        assert(!v.latches.contains(id)) by {
            if v.latches.contains(id) {
                let i = choose|i: int| 0 <= i < v.latches.len() && v.latches[i] == id;
                assert(v.nodes.contains_key(v.latches[i]));
            }
        }
    }
}

impl Default for Aig {
    fn default() -> (r: Aig)
        ensures
            r.wf(),
            r@.nodes == Map::<u32, Node>::empty(),
            r@.inputs == Seq::<u32>::empty(),
            r@.latches == Seq::<u32>::empty(),
            r@.outputs == Seq::<Ref>::empty(),
    {
        let r = Aig { nodes: HashMap::new(), inputs: Vec::new(), latches: Vec::new(), outputs: Vec::new() };
        assert(r@.inputs =~= Seq::<u32>::empty());
        assert(r@.latches =~= Seq::<u32>::empty());
        assert(r@.outputs =~= Seq::<Ref>::empty());
        r
    }
}

/// Why a graph cannot be layered, simulated or encoded.
#[derive(Debug, Clone, Copy, PartialEq, Eq, Structural)]
pub enum AigError {
    /// A gate argument, latch next state or output names an id that no
    /// node has.
    DanglingReference(u32),
    /// The combinational dependencies contain a cycle.
    Cycle,
    /// The graph has latches, which simulation and CNF encoding do not take.
    LatchesPresent,
}

/// The ids that a node's combinational value depends on.
pub open spec fn child_ids(n: Node) -> Seq<u32> {
    n.spec_children().map_values(|r: Ref| r.spec_id())
}

/// The combinational dependency graph: each node to the ids of its
/// arguments. Latch next states are not dependencies.
pub open spec fn dependencies(v: AigView) -> Map<u32, Seq<u32>> {
    v.nodes.map_values(|n: Node| child_ids(n))
}

/// The references that a node holds: a gate's arguments, a latch's next
/// state.
pub open spec fn node_refs(n: Node) -> Seq<Ref> {
    match n {
        Node::AndGate(g) => g.args@,
        Node::Latch(l) => seq![l.next],
        _ => Seq::empty(),
    }
}

/// Every reference held by a node or listed as an output names a node or
/// a constant.
pub open spec fn refs_resolve(v: AigView) -> bool {
    &&& forall|k: u32, i: int|
        #![trigger node_refs(v.nodes[k])[i]]
        v.nodes.contains_key(k) && 0 <= i < node_refs(v.nodes[k]).len() ==> has_id(
            v,
            node_refs(v.nodes[k])[i].spec_id(),
        )
    &&& forall|i: int| 0 <= i < v.outputs.len() ==> has_id(v, #[trigger] v.outputs[i].spec_id())
}

/// Some node or output refers to `id`.
pub open spec fn is_referenced(v: AigView, id: u32) -> bool {
    ||| exists|k: u32, i: int|
        #![trigger node_refs(v.nodes[k])[i]]
        v.nodes.contains_key(k) && 0 <= i < node_refs(v.nodes[k]).len() && node_refs(v.nodes[k])[i].spec_id()
            == id
    ||| exists|i: int| 0 <= i < v.outputs.len() && #[trigger] v.outputs[i].spec_id() == id
}

/// The same edges, pointing the other way.
pub open spec fn reversed(e: Set<(u32, u32)>) -> Set<(u32, u32)> {
    Set::new(|p: (u32, u32)| e.contains((p.1, p.0)))
}

/// Reversing the edges keeps a relation acyclic.
pub proof fn lemma_reversed_acyclic(e: Set<(u32, u32)>)
    requires
        is_acyclic(e),
    ensures
        is_acyclic(reversed(e)),
{
    assert forall|c: Seq<u32>| !is_cycle(reversed(e), c) by {
        if is_cycle(reversed(e), c) {
            let n = c.len() as int;
            let d = c.reverse();
            assert forall|i: int| 0 <= i < d.len() implies #[trigger] e.contains((d[i], d[(i + 1) % (d.len() as int)])) by {
                if i < n - 1 {
                    let j = n - 2 - i;
                    assert((i + 1) % n == i + 1) by (nonlinear_arith)
                        requires
                            0 <= i + 1 < n,
                    ;
                    assert((j + 1) % n == j + 1) by (nonlinear_arith)
                        requires
                            0 <= j + 1 < n,
                    ;
                    assert(reversed(e).contains((c[j], c[(j + 1) % n])));
                } else {
                    assert((i + 1) % n == 0) by (nonlinear_arith)
                        requires
                            i + 1 == n,
                            n > 0,
                    ;
                    assert(reversed(e).contains((c[n - 1], c[(n - 1 + 1) % n])));
                    assert((n - 1 + 1) % n == 0) by (nonlinear_arith)
                        requires
                            n > 0,
                    ;
                }
            }
            assert(is_cycle(e, d));
        }
    }
}

/// An AIG whose combinational dependencies are acyclic can be layered in
/// both orientations.
pub proof fn lemma_acyclic_aig_layers(v: AigView)
    requires
        wf_view(v),
        is_acyclic(graph_edges(dependencies(v))),
    ensures
        peels_completely(graph_nodes(dependencies(v)), graph_edges(dependencies(v))),
        peels_completely(graph_nodes(dependencies(v)), reversed(graph_edges(dependencies(v)))),
{
    let dep = dependencies(v);
    assert(dep.dom() == v.nodes.dom());
    lemma_acyclic_graph_layers(dep);
    lemma_graph_nodes_finite(dep);
    lemma_reversed_acyclic(graph_edges(dep));
    assert forall|u: u32, w: u32| #[trigger] reversed(graph_edges(dep)).contains((u, w)) implies graph_nodes(
        dep,
    ).contains(u) by {
        assert(crate::toposort::has_edge(dep, w, u));
    }
    lemma_acyclic_peels(graph_nodes(dep), reversed(graph_edges(dep)));
}

/// What a layering call returns for a graph: the layers when every
/// reference resolves and peeling completes, else the error.
pub open spec fn layering_result(
    v: AigView,
    nodes: Set<u32>,
    edges: Set<(u32, u32)>,
    r: Result<Vec<Vec<u32>>, AigError>,
) -> bool {
    match r {
        Ok(ls) => refs_resolve(v) && is_layering(nodes, edges, ls@.map_values(|l: Vec<u32>| l@)),
        Err(AigError::DanglingReference(id)) => !refs_resolve(v) && !has_id(v, id) && is_referenced(v, id),
        Err(AigError::Cycle) => refs_resolve(v) && !peels_completely(nodes, edges),
        Err(AigError::LatchesPresent) => false,
    }
}

impl Aig {
    /// Checks that every held reference and every output resolves.
    pub fn check_references(&self) -> (r: Result<(), AigError>)
        requires
            self.wf(),
        ensures
            match r {
                Ok(()) => refs_resolve(self@),
                Err(AigError::DanglingReference(id)) => !refs_resolve(self@) && !has_id(self@, id)
                    && is_referenced(self@, id),
                Err(_) => false,
            },
    {
        let keys = keys_of(&self.nodes);
        let mut t: usize = 0;
        while t < keys.len()
            invariant
                t <= keys@.len(),
                self.wf(),
                forall|x: u32| #[trigger] keys@.contains(x) <==> self@.nodes.contains_key(x),
                forall|t2: int, i: int|
                    0 <= t2 < t && 0 <= i < node_refs(self@.nodes[keys@[t2]]).len() ==> has_id(
                        self@,
                        #[trigger] node_refs(self@.nodes[keys@[t2]])[i].spec_id(),
                    ),
            decreases keys@.len() - t,
        {
            let k = keys[t];
            assert(keys@.contains(k));
            let node = self.node(k);
            let ghost refs = node_refs(node);
            match node {
                Node::AndGate(g) => {
                    assert(refs == g.args@);
                    if !self.contains(g.args[0].id()) {
                        assert(node_refs(self@.nodes[k])[0] == g.args[0]);
                        return Err(AigError::DanglingReference(g.args[0].id()));
                    }
                    if !self.contains(g.args[1].id()) {
                        assert(node_refs(self@.nodes[k])[1] == g.args[1]);
                        return Err(AigError::DanglingReference(g.args[1].id()));
                    }
                },
                Node::Latch(l) => {
                    if !self.contains(l.next.id()) {
                        assert(node_refs(self@.nodes[k])[0] == l.next);
                        return Err(AigError::DanglingReference(l.next.id()));
                    }
                },
                _ => {},
            }
            t = t + 1;
        }
        let mut i: usize = 0;
        while i < self.outputs.len()
            invariant
                i <= self@.outputs.len(),
                forall|i2: int| 0 <= i2 < i ==> has_id(self@, #[trigger] self@.outputs[i2].spec_id()),
            decreases self@.outputs.len() - i,
        {
            let o = self.outputs[i];
            if !self.contains(o.id()) {
                return Err(AigError::DanglingReference(o.id()));
            }
            i = i + 1;
        }
        proof {
            assert forall|k: u32, i2: int|
                self@.nodes.contains_key(k) && 0 <= i2 < node_refs(self@.nodes[k]).len() implies has_id(
                    self@,
                    #[trigger] node_refs(self@.nodes[k])[i2].spec_id(),
                ) by {
                assert(keys@.contains(k));
                let t2 = choose|t2: int| 0 <= t2 < keys@.len() && keys@[t2] == k;
                assert(has_id(self@, node_refs(self@.nodes[keys@[t2]])[i2].spec_id()));
            }
        }
        Ok(())
    }

    /// The ids that a node depends on.
    fn child_id_vec(node: &Node) -> (r: Vec<u32>)
        ensures
            r@ == child_ids(*node),
    {
        let mut r: Vec<u32> = Vec::new();
        match node {
            Node::AndGate(g) => {
                r.push(g.args[0].id());
                r.push(g.args[1].id());
                assert(r@ =~= child_ids(*node));
            },
            _ => {
                assert(r@ =~= child_ids(*node));
            },
        }
        r
    }

    /// Each node mapped to the ids it depends on.
    fn dependency_graph(&self) -> (r: HashMap<u32, Vec<u32>>)
        requires
            self.wf(),
        ensures
            adjacency(r@) == dependencies(self@),
    {
        let keys = keys_of(&self.nodes);
        let mut r: HashMap<u32, Vec<u32>> = HashMap::new();
        let mut t: usize = 0;
        while t < keys.len()
            invariant
                t <= keys@.len(),
                self.wf(),
                keys@.no_duplicates(),
                forall|x: u32| #[trigger] keys@.contains(x) <==> self@.nodes.contains_key(x),
                forall|x: u32| #[trigger] r@.contains_key(x) <==> keys@.take(t as int).contains(x),
                forall|x: u32| r@.contains_key(x) ==> r@[x]@ == child_ids(self@.nodes[x]),
            decreases keys@.len() - t,
        {
            let k = keys[t];
            assert(keys@.contains(k));
            let node = self.node(k);
            let deps = Self::child_id_vec(&node);
            r.insert(k, deps);
            assert(keys@.take(t + 1) == keys@.take(t as int).push(k));
            t = t + 1;
        }
        assert(keys@.take(keys@.len() as int) == keys@);
        assert(adjacency(r@) =~= dependencies(self@));
        r
    }

    /// Each node (and the constant, when referenced) mapped to the nodes
    /// that depend on it.
    fn reverse_dependency_graph(&self) -> (r: HashMap<u32, Vec<u32>>)
        requires
            self.wf(),
        ensures
            graph_nodes(adjacency(r@)) == graph_nodes(dependencies(self@)),
            graph_edges(adjacency(r@)) == reversed(graph_edges(dependencies(self@))),
    {
        let ghost dep = dependencies(self@);
        let keys = keys_of(&self.nodes);
        let mut r: HashMap<u32, Vec<u32>> = HashMap::new();
        let mut t: usize = 0;
        while t < keys.len()
            invariant
                t <= keys@.len(),
                forall|x: u32| #[trigger] keys@.contains(x) <==> self@.nodes.contains_key(x),
                forall|x: u32| #[trigger] r@.contains_key(x) <==> keys@.take(t as int).contains(x),
                forall|x: u32| r@.contains_key(x) ==> r@[x]@.len() == 0,
            decreases keys@.len() - t,
        {
            let k = keys[t];
            r.insert(k, Vec::new());
            assert(keys@.take(t + 1) == keys@.take(t as int).push(k));
            t = t + 1;
        }
        assert(keys@.take(keys@.len() as int) == keys@);
        let mut t: usize = 0;
        while t < keys.len()
            invariant
                t <= keys@.len(),
                self.wf(),
                dep == dependencies(self@),
                keys@.no_duplicates(),
                forall|x: u32| #[trigger] keys@.contains(x) <==> self@.nodes.contains_key(x),
                forall|x: u32| self@.nodes.contains_key(x) ==> #[trigger] r@.contains_key(x),
                forall|x: u32| #[trigger] r@.contains_key(x) ==> self@.nodes.contains_key(x) || r@[x]@.len() > 0,
                forall|x: u32, y: u32|
                    r@.contains_key(x) ==> (#[trigger] r@[x]@.contains(y) <==> (keys@.take(t as int).contains(y)
                        && dep[y].contains(x))),
                forall|x: u32, y: u32|
                    keys@.take(t as int).contains(y) && #[trigger] dep[y].contains(x) ==> r@.contains_key(x),
            decreases keys@.len() - t,
        {
            let k = keys[t];
            assert(keys@.contains(k));
            assert(!keys@.take(t as int).contains(k)) by {
                if keys@.take(t as int).contains(k) {
                    let a = choose|a: int| 0 <= a < t && keys@.take(t as int)[a] == k;
                    assert(keys@[a] == keys@[t as int]);
                }
            }
            let node = self.node(k);
            let deps = Self::child_id_vec(&node);
            assert(deps@ == dep[k]);
            assert(deps@.take(0) =~= Seq::<u32>::empty());
            let mut p: usize = 0;
            while p < deps.len()
                invariant
                    p <= deps@.len(),
                    t < keys@.len(),
                    k == keys@[t as int],
                    !keys@.take(t as int).contains(k),
                    deps@ == dep[k],
                    dep == dependencies(self@),
                    forall|x: u32| self@.nodes.contains_key(x) ==> #[trigger] r@.contains_key(x),
                    forall|x: u32| #[trigger] r@.contains_key(x) ==> self@.nodes.contains_key(x) || r@[x]@.len() > 0,
                    forall|x: u32, y: u32|
                        r@.contains_key(x) ==> (#[trigger] r@[x]@.contains(y) <==> ((keys@.take(t as int).contains(y)
                            && dep[y].contains(x)) || (y == k && deps@.take(p as int).contains(x)))),
                    forall|x: u32, y: u32|
                        keys@.take(t as int).contains(y) && #[trigger] dep[y].contains(x) ==> r@.contains_key(x),
                    forall|x: u32| #[trigger] deps@.take(p as int).contains(x) ==> r@.contains_key(x),
                decreases deps@.len() - p,
            {
                let c = deps[p];
                let ghost before = r@;
                let mut parents = match r.remove(&c) {
                    Some(v) => v,
                    None => Vec::new(),
                };
                let ghost old_parents = parents@;
                assert(before.contains_key(c) ==> old_parents == before[c]@);
                assert(!before.contains_key(c) ==> old_parents == Seq::<u32>::empty());
                parents.push(k);
                r.insert(c, parents);
                proof {
                    assert(r@ == before.insert(c, parents));
                    assert(deps@.take(p + 1) == deps@.take(p as int).push(c));
                    assert forall|x: u32, y: u32|
                        r@.contains_key(x) implies (#[trigger] r@[x]@.contains(y) <==> ((keys@.take(t as int).contains(y)
                            && dep[y].contains(x)) || (y == k && deps@.take(p + 1).contains(x)))) by {
                        if x == c {
                            assert(r@[x]@ == old_parents.push(k));
                        } else {
                            assert(r@[x] == before[x]);
                        }
                    }
                    assert forall|x: u32| #[trigger] r@.contains_key(x) implies self@.nodes.contains_key(x) || r@[x]@.len() > 0 by {
                        if x == c {
                            assert(r@[x]@ == old_parents.push(k));
                        } else {
                            assert(r@[x] == before[x]);
                        }
                    }
                }
                p = p + 1;
            }
            proof {
                assert(deps@.take(deps@.len() as int) == deps@);
                assert(keys@.take(t + 1) == keys@.take(t as int).push(k));
                assert forall|x: u32, y: u32|
                    keys@.take(t + 1).contains(y) && #[trigger] dep[y].contains(x) implies r@.contains_key(x) by {
                    if y == k {
                        assert(deps@.take(deps@.len() as int).contains(x));
                    }
                }
            }
            t = t + 1;
        }
        assert(keys@.take(keys@.len() as int) == keys@);
        proof {
            let rg = adjacency(r@);
            assert forall|x: u32| #[trigger] graph_nodes(rg).contains(x) <==> graph_nodes(dep).contains(x) by {
                if graph_nodes(dep).contains(x) {
                    if !dep.contains_key(x) {
                        let u = choose|u: u32| #[trigger] crate::toposort::has_edge(dep, u, x);
                        assert(keys@.contains(u));
                        assert(r@.contains_key(x));
                    }
                }
                if graph_nodes(rg).contains(x) {
                    if !rg.contains_key(x) {
                        let u = choose|u: u32| #[trigger] crate::toposort::has_edge(rg, u, x);
                        assert(r@[u]@.contains(x));
                        assert(keys@.contains(x));
                    } else if !self@.nodes.contains_key(x) {
                        let y = r@[x]@[0];
                        assert(r@[x]@.contains(y));
                        assert(keys@.contains(y));
                        assert(crate::toposort::has_edge(dep, y, x));
                    }
                }
            }
            assert(graph_nodes(rg) =~= graph_nodes(dep));
            assert forall|e: (u32, u32)| #[trigger] graph_edges(rg).contains(e) <==> reversed(graph_edges(dep)).contains(e) by {
                let (x, y) = e;
                if graph_edges(dep).contains((y, x)) {
                    assert(keys@.contains(y));
                    assert(r@.contains_key(x));
                    assert(r@[x]@.contains(y));
                    assert(graph_edges(rg).contains((x, y)));
                }
                if graph_edges(rg).contains(e) {
                    assert(r@[x]@.contains(y));
                    assert(crate::toposort::has_edge(dep, y, x));
                    assert(graph_edges(dep).contains((y, x)));
                }
            }
            assert(graph_edges(rg) =~= reversed(graph_edges(dep)));
        }
        r
    }

    /// The "forward" layers, outputs first: layer 0 holds the nodes that
    /// nothing depends on, and every node comes before the nodes it reads.
    pub fn layers_output(&self) -> (r: Result<Vec<Vec<u32>>, AigError>)
        requires
            self.wf(),
        ensures
            layering_result(
                self@,
                graph_nodes(dependencies(self@)),
                graph_edges(dependencies(self@)),
                r,
            ),
    {
        match self.check_references() {
            Ok(()) => {},
            Err(e) => {
                return Err(e);
            },
        }
        let graph = self.dependency_graph();
        match toposort_layers(&graph) {
            Some(layers) => Ok(layers),
            None => Err(AigError::Cycle),
        }
    }

    /// The "backward" layers, inputs first: layer 0 holds the nodes that
    /// depend on nothing (the inputs, the latches, and the constant when it
    /// is referenced), and every node comes after the nodes it reads.
    pub fn layers_input(&self) -> (r: Result<Vec<Vec<u32>>, AigError>)
        requires
            self.wf(),
        ensures
            layering_result(
                self@,
                graph_nodes(dependencies(self@)),
                reversed(graph_edges(dependencies(self@))),
                r,
            ),
    {
        match self.check_references() {
            Ok(()) => {},
            Err(e) => {
                return Err(e);
            },
        }
        let graph = self.reverse_dependency_graph();
        match toposort_layers(&graph) {
            Some(layers) => Ok(layers),
            None => Err(AigError::Cycle),
        }
    }
}

} // verus!
