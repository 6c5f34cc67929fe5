//! Combinational simulation.
use std::collections::BTreeMap;
use vstd::prelude::*;
use crate::aig::{
    child_ids, dependencies, has_id, node_refs, refs_resolve, reversed, Aig, AigError, AigView,
};
use crate::layering::{emitted, layer, peels_completely, preds_in, sorted_strictly};
use crate::node::Node;
use crate::reference::Ref;
use crate::toposort::{graph_edges, graph_nodes, has_edge};

verus! {

broadcast use vstd::laws_cmp::group_laws_cmp, vstd::seq_lib::lemma_seq_contains_after_push;

/// The value of a reference: a constant's own value, or the value of the
/// node it points to, inverted when the reference is negated.
pub open spec fn ref_value(values: Map<u32, bool>, r: Ref) -> bool {
    if r.spec_id() == 0 {
        r.spec_negated()
    } else {
        values[r.spec_id()] != r.spec_negated()
    }
}

/// The value of an AND gate over two arguments.
pub open spec fn and_value(values: Map<u32, bool>, a: Ref, b: Ref) -> bool {
    ref_value(values, a) && ref_value(values, b)
}

/// `values` simulates the graph on the input vector `xs`: it gives every
/// node a value, each input the entry of `xs` at its position, and each
/// gate the AND of its arguments' values.
pub open spec fn is_simulation(v: AigView, xs: Seq<bool>, values: Map<u32, bool>) -> bool {
    &&& values.dom() == v.nodes.dom()
    &&& forall|i: int| 0 <= i < v.inputs.len() ==> values[#[trigger] v.inputs[i]] == xs[i]
    &&& forall|k: u32|
        #![trigger v.nodes[k]]
        v.nodes.contains_key(k) && v.nodes[k] is AndGate ==> values[k] == and_value(
            values,
            v.nodes[k]->AndGate_0.args[0],
            v.nodes[k]->AndGate_0.args[1],
        )
}

/// A constant-false argument makes an AND false whatever the other
/// argument is; in a simulation, such a gate is false.
pub proof fn lemma_false_absorbs(values: Map<u32, bool>, f: Ref, other: Ref)
    requires
        f.spec_const() == Some(false),
    ensures
        !and_value(values, f, other),
        !and_value(values, other, f),
{
}

/// In a simulation, a gate with a constant-false argument is false, for
/// every input vector.
pub proof fn lemma_simulated_false_gate(v: AigView, xs: Seq<bool>, values: Map<u32, bool>, k: u32, j: int)
    requires
        is_simulation(v, xs, values),
        v.nodes.contains_key(k),
        v.nodes[k] is AndGate,
        0 <= j < 2,
        v.nodes[k]->AndGate_0.args[j].spec_const() == Some(false),
    ensures
        values[k] == false,
{
    let g = v.nodes[k]->AndGate_0;
    lemma_false_absorbs(values, g.args[j], g.args[1 - j]);
}

/// A circuit that can be simulated has one simulation per input vector:
/// the result of `eval` is determined by the graph and the inputs.
pub proof fn lemma_simulation_unique(v: AigView, xs: Seq<bool>, m1: Map<u32, bool>, m2: Map<u32, bool>)
    requires
        crate::aig::wf_view(v),
        simulates(v),
        is_simulation(v, xs, m1),
        is_simulation(v, xs, m2),
    ensures
        m1 == m2,
{
    let nodes = graph_nodes(dependencies(v));
    let edges = input_edges(v);
    let n = choose|n: nat| #[trigger] emitted(nodes, edges, n) == nodes;
    lemma_agree_on_emitted(v, xs, m1, m2, n);
    assert forall|x: u32| m1.contains_key(x) implies m1[x] == m2[x] by {
        assert(dependencies(v).contains_key(x));
        assert(nodes.contains(x));
    }
    assert(m1 =~= m2);
}

/// Two simulations agree on every node emitted by the first `k` layers.
proof fn lemma_agree_on_emitted(v: AigView, xs: Seq<bool>, m1: Map<u32, bool>, m2: Map<u32, bool>, k: nat)
    requires
        crate::aig::wf_view(v),
        v.latches.len() == 0,
        refs_resolve(v),
        is_simulation(v, xs, m1),
        is_simulation(v, xs, m2),
    ensures
        forall|x: u32|
            emitted(graph_nodes(dependencies(v)), input_edges(v), k).contains(x) && v.nodes.contains_key(x)
                ==> m1[x] == m2[x],
    decreases k,
{
    let nodes = graph_nodes(dependencies(v));
    let edges = input_edges(v);
    if k > 0 {
        let j = (k - 1) as nat;
        lemma_agree_on_emitted(v, xs, m1, m2, j);
        let e = emitted(nodes, edges, j);
        assert forall|x: u32| emitted(nodes, edges, k).contains(x) && v.nodes.contains_key(x) implies m1[x] == m2[x] by {
            if !e.contains(x) {
                let node = v.nodes[x];
                assert(layer(nodes, edges, j).contains(x));
                assert(preds_in(edges, x, e));
                if node is Input {
                    assert(v.inputs.contains(x));
                    let i = choose|i: int| 0 <= i < v.inputs.len() && v.inputs[i] == x;
                    assert(m1[v.inputs[i]] == xs[i]);
                } else if node is AndGate {
                    let g = node->AndGate_0;
                    assert forall|t: int| 0 <= t < 2 implies ref_value(m1, #[trigger] g.args[t]) == ref_value(m2, g.args[t]) by {
                        let a = g.args[t];
                        assert(child_ids(node)[t] == a.spec_id());
                        assert(has_edge(dependencies(v), x, a.spec_id()));
                        assert(edges.contains((a.spec_id(), x)));
                        assert(node_refs(node)[t] == a);
                        if a.spec_id() != 0 {
                            assert(e.contains(a.spec_id()));
                            assert(v.nodes.contains_key(a.spec_id()));
                        }
                    }
                    assert(ref_value(m1, g.args[0]) == ref_value(m2, g.args[0]));
                    assert(ref_value(m1, g.args[1]) == ref_value(m2, g.args[1]));
                } else {
                    assert(node is Latch);
                    assert(v.latches.contains(x));
                }
            }
        }
    }
}

/// The inputs-first precedence: a node comes after the nodes it reads.
pub open spec fn input_edges(v: AigView) -> Set<(u32, u32)> {
    reversed(graph_edges(dependencies(v)))
}

/// When simulation succeeds: no latches, every reference resolves, and the
/// dependencies are acyclic.
pub open spec fn simulates(v: AigView) -> bool {
    &&& v.latches.len() == 0
    &&& refs_resolve(v)
    &&& peels_completely(graph_nodes(dependencies(v)), input_edges(v))
}

/// Values computed so far: the inputs, and the gates among `done`, each
/// consistent with its arguments, which have values too.
pub open spec fn partial_simulation(v: AigView, xs: Seq<bool>, done: Set<u32>, values: Map<u32, bool>) -> bool {
    &&& forall|x: u32|
        #[trigger] values.contains_key(x) <==> (v.nodes.contains_key(x) && (v.nodes[x] is Input || (
        v.nodes[x] is AndGate && done.contains(x))))
    &&& forall|i: int| 0 <= i < v.inputs.len() ==> values[#[trigger] v.inputs[i]] == xs[i]
    &&& forall|k: u32|
        #![trigger v.nodes[k]]
        values.contains_key(k) && v.nodes[k] is AndGate ==> {
            &&& has_value(values, v.nodes[k]->AndGate_0.args[0])
            &&& has_value(values, v.nodes[k]->AndGate_0.args[1])
            &&& values[k] == and_value(values, v.nodes[k]->AndGate_0.args[0], v.nodes[k]->AndGate_0.args[1])
        }
}

pub open spec fn has_value(values: Map<u32, bool>, r: Ref) -> bool {
    r.spec_id() == 0 || values.contains_key(r.spec_id())
}

/// Every node of a layer is stored, or is the constant.
proof fn lemma_layered_node_exists(v: AigView, nodes: Set<u32>, edges: Set<(u32, u32)>, k: nat, id: u32)
    requires
        refs_resolve(v),
        nodes == graph_nodes(dependencies(v)),
        edges == input_edges(v),
        layer(nodes, edges, k).contains(id),
    ensures
        has_id(v, id),
{
    let dep = dependencies(v);
    if !dep.contains_key(id) {
        let u = choose|u: u32| #[trigger] has_edge(dep, u, id);
        let n = v.nodes[u];
        assert(child_ids(n).contains(id));
        let i = choose|i: int| 0 <= i < child_ids(n).len() && child_ids(n)[i] == id;
        assert(node_refs(n)[i].spec_id() == id);
    }
}

/// A gate of layer `k` reads only nodes emitted before it, which already
/// have values.
proof fn lemma_args_have_values(
    v: AigView,
    xs: Seq<bool>,
    nodes: Set<u32>,
    edges: Set<(u32, u32)>,
    k: nat,
    done: Set<u32>,
    values: Map<u32, bool>,
    id: u32,
)
    requires
        crate::aig::wf_view(v),
        v.latches.len() == 0,
        refs_resolve(v),
        nodes == graph_nodes(dependencies(v)),
        edges == input_edges(v),
        layer(nodes, edges, k).contains(id),
        emitted(nodes, edges, k).subset_of(done),
        partial_simulation(v, xs, done, values),
        v.nodes.contains_key(id),
        v.nodes[id] is AndGate,
    ensures
        has_value(values, v.nodes[id]->AndGate_0.args[0]),
        has_value(values, v.nodes[id]->AndGate_0.args[1]),
{
    let dep = dependencies(v);
    let g = v.nodes[id]->AndGate_0;
    let e = emitted(nodes, edges, k);
    assert(preds_in(edges, id, e));
    assert forall|j: int| 0 <= j < 2 implies has_value(values, #[trigger] g.args[j]) by {
        let a = g.args[j];
        assert(child_ids(v.nodes[id])[j] == a.spec_id());
        assert(has_edge(dep, id, a.spec_id()));
        assert(edges.contains((a.spec_id(), id)));
        assert(node_refs(v.nodes[id])[j] == a);
        if a.spec_id() != 0 {
            assert(done.contains(a.spec_id()));
            assert(v.nodes.contains_key(a.spec_id()));
            assert(!(v.nodes[a.spec_id()] is Latch));
        }
    }
    assert(has_value(values, g.args[0]));
    assert(has_value(values, g.args[1]));
}

/// Giving a gate whose arguments have values its AND keeps the partial
/// simulation consistent.
proof fn lemma_insert_gate(
    v: AigView,
    xs: Seq<bool>,
    done: Set<u32>,
    before: Map<u32, bool>,
    after: Map<u32, bool>,
    id: u32,
)
    requires
        crate::aig::wf_view(v),
        partial_simulation(v, xs, done, before),
        v.nodes.contains_key(id),
        v.nodes[id] is AndGate,
        !done.contains(id),
        has_value(before, v.nodes[id]->AndGate_0.args[0]),
        has_value(before, v.nodes[id]->AndGate_0.args[1]),
        after == before.insert(
            id,
            and_value(before, v.nodes[id]->AndGate_0.args[0], v.nodes[id]->AndGate_0.args[1]),
        ),
    ensures
        partial_simulation(v, xs, done.insert(id), after),
{
    assert(!before.contains_key(id));
    assert forall|i: int| 0 <= i < v.inputs.len() implies after[#[trigger] v.inputs[i]] == xs[i] by {
        assert(v.nodes.contains_key(v.inputs[i]));
        assert(v.inputs.contains(v.inputs[i]));
        assert(before.contains_key(v.inputs[i]));
    }
    assert forall|k: u32|
        #![trigger v.nodes[k]]
        after.contains_key(k) && v.nodes[k] is AndGate implies {
            &&& has_value(after, v.nodes[k]->AndGate_0.args[0])
            &&& has_value(after, v.nodes[k]->AndGate_0.args[1])
            &&& after[k] == and_value(after, v.nodes[k]->AndGate_0.args[0], v.nodes[k]->AndGate_0.args[1])
        } by {
        let g = v.nodes[k]->AndGate_0;
        if k == id {
            assert(g.args[0].spec_id() != id);
            assert(g.args[1].spec_id() != id);
        } else {
            assert(before.contains_key(k));
        }
        assert(ref_value(after, g.args[0]) == ref_value(before, g.args[0]));
        assert(ref_value(after, g.args[1]) == ref_value(before, g.args[1]));
    }
}

/// Inputs, the constant and other non-gates need no work.
proof fn lemma_skip_node(v: AigView, xs: Seq<bool>, done: Set<u32>, values: Map<u32, bool>, id: u32)
    requires
        partial_simulation(v, xs, done, values),
        !(v.nodes.contains_key(id) && v.nodes[id] is AndGate),
    ensures
        partial_simulation(v, xs, done.insert(id), values),
{
}

fn value_of(values: &BTreeMap<u32, bool>, r: Ref) -> (b: bool)
    requires
        has_value(values@, r),
    ensures
        b == ref_value(values@, r),
{
    let id = r.id();
    if id == 0 {
        return r.is_negated();
    }
    match values.get(&id) {
        Some(v) => *v != r.is_negated(),
        None => false,
    }
}

impl Aig {
    /// Simulates the circuit on one value per input, matched to the inputs
    /// by position; returns the value of every node. Graphs with latches
    /// are rejected.
    pub fn eval(&self, input_values: Vec<bool>) -> (r: Result<BTreeMap<u32, bool>, AigError>)
        requires
            self.wf(),
            input_values@.len() == self@.inputs.len(),
        ensures
            r is Ok <==> simulates(self@),
            r matches Ok(values) ==> is_simulation(self@, input_values@, values@),
            r matches Err(AigError::LatchesPresent) ==> self@.latches.len() > 0,
            r matches Err(AigError::DanglingReference(id)) ==> self@.latches.len() == 0 && !refs_resolve(self@)
                && !has_id(self@, id),
            r matches Err(AigError::Cycle) ==> self@.latches.len() == 0 && refs_resolve(self@)
                && !peels_completely(graph_nodes(dependencies(self@)), input_edges(self@)),
    {
        if self.latches().len() > 0 {
            return Err(AigError::LatchesPresent);
        }
        let layers = match self.layers_input() {
            Ok(layers) => layers,
            Err(e) => {
                return Err(e);
            },
        };
        let ghost v = self@;
        let ghost xs = input_values@;
        let ghost nodes = graph_nodes(dependencies(v));
        let ghost edges = input_edges(v);
        let ghost ls = layers@.map_values(|l: Vec<u32>| l@);
        let inputs = self.inputs();
        let mut values: BTreeMap<u32, bool> = BTreeMap::new();
        let mut i: usize = 0;
        while i < inputs.len()
            invariant
                self.wf(),
                v == self@,
                xs == input_values@,
                inputs@ == v.inputs,
                xs.len() == v.inputs.len(),
                i <= inputs@.len(),
                forall|x: u32| #[trigger] values@.contains_key(x) <==> v.inputs.take(i as int).contains(x),
                forall|i2: int| 0 <= i2 < i ==> values@[#[trigger] v.inputs[i2]] == xs[i2],
            decreases inputs@.len() - i,
        {
            values.insert(inputs[i], input_values[i]);
            proof {
                assert(v.inputs.take(i + 1) == v.inputs.take(i as int).push(v.inputs[i as int]));
                assert forall|i2: int| 0 <= i2 < i + 1 implies values@[#[trigger] v.inputs[i2]] == xs[i2] by {
                    if i2 < i {
                        assert(v.inputs[i2] != v.inputs[i as int]);
                    }
                }
            }
            i = i + 1;
        }
        proof {
            assert(v.inputs.take(v.inputs.len() as int) == v.inputs);
            assert(emitted(nodes, edges, 0) == Set::<u32>::empty());
            assert forall|x: u32| #[trigger] values@.contains_key(x) <==> (v.nodes.contains_key(x) && (
                v.nodes[x] is Input || (v.nodes[x] is AndGate && Set::<u32>::empty().contains(x)))) by {
                if values@.contains_key(x) {
                    let i2 = choose|i2: int| 0 <= i2 < v.inputs.len() && v.inputs[i2] == x;
                    assert(v.nodes.contains_key(v.inputs[i2]));
                }
            }
        }
        let mut k: usize = 0;
        while k < layers.len()
            invariant
                self.wf(),
                v == self@,
                xs == input_values@,
                xs.len() == v.inputs.len(),
                v.latches.len() == 0,
                refs_resolve(v),
                nodes == graph_nodes(dependencies(v)),
                edges == input_edges(v),
                ls == layers@.map_values(|l: Vec<u32>| l@),
                crate::layering::is_layering(nodes, edges, ls),
                k <= layers@.len(),
                partial_simulation(v, xs, emitted(nodes, edges, k as nat), values@),
            decreases layers@.len() - k,
        {
            let layer_k = &layers[k];
            assert(layer_k@ == ls[k as int]);
            let ghost e = emitted(nodes, edges, k as nat);
            let mut q: usize = 0;
            while q < layer_k.len()
                invariant
                    self.wf(),
                    v == self@,
                    xs == input_values@,
                    v.latches.len() == 0,
                    refs_resolve(v),
                    nodes == graph_nodes(dependencies(v)),
                    edges == input_edges(v),
                    e == emitted(nodes, edges, k as nat),
                    sorted_strictly(layer_k@),
                    layer_k@.to_set() == layer(nodes, edges, k as nat),
                    q <= layer_k@.len(),
                    partial_simulation(v, xs, e.union(layer_k@.take(q as int).to_set()), values@),
                decreases layer_k@.len() - q,
            {
                let id = layer_k[q];
                let ghost done = e.union(layer_k@.take(q as int).to_set());
                proof {
                    assert(layer_k@.to_set().contains(id));
                    lemma_layered_node_exists(v, nodes, edges, k as nat, id);
                }
                let node = self.node(id);
                match node {
                    Node::AndGate(g) => {
                        proof {
                            lemma_args_have_values(v, xs, nodes, edges, k as nat, done, values@, id);
                            assert(!done.contains(id)) by {
                                if layer_k@.take(q as int).to_set().contains(id) {
                                    let a = choose|a: int| 0 <= a < q && layer_k@.take(q as int)[a] == id;
                                    assert(layer_k@[a] < layer_k@[q as int]);
                                }
                            }
                        }
                        let a = value_of(&values, g.args[0]);
                        let b = value_of(&values, g.args[1]);
                        let ghost before = values@;
                        values.insert(id, a && b);
                        proof {
                            lemma_insert_gate(v, xs, done, before, values@, id);
                        }
                    },
                    _ => {
                        proof {
                            lemma_skip_node(v, xs, done, values@, id);
                        }
                    },
                }
                proof {
                    assert(layer_k@.take(q + 1) == layer_k@.take(q as int).push(id));
                    assert(done.insert(id) =~= e.union(layer_k@.take(q + 1).to_set())) by {
                        assert(layer_k@.take(q as int).push(id).to_set() == layer_k@.take(q as int).to_set().insert(id)) by {
                            layer_k@.take(q as int).lemma_push_to_set_commute(id);
                        }
                    }
                }
                q = q + 1;
            }
            proof {
                assert(layer_k@.take(layer_k@.len() as int) == layer_k@);
                assert(e.union(layer_k@.to_set()) =~= emitted(nodes, edges, (k + 1) as nat));
            }
            k = k + 1;
        }
        proof {
            assert(emitted(nodes, edges, layers@.len() as nat) == nodes);
            assert(values@.dom() =~= v.nodes.dom()) by {
                assert forall|x: u32| v.nodes.contains_key(x) implies values@.contains_key(x) by {
                    assert(dependencies(v).contains_key(x));
                    assert(nodes.contains(x));
                }
            }
        }
        Ok(values)
    }
}

} // verus!
