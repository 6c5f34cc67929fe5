//! Tseitin encoding of a combinational AIG into CNF, with constant folding.
use std::collections::HashMap;
use vstd::prelude::*;
use crate::aig::{dependencies, has_id, refs_resolve, wf_view, Aig, AigError, AigView};
use crate::eval::input_edges;
use crate::layering::{emitted, is_layering, layer, peels_completely, preds_in, sorted_strictly};
use crate::node::Node;
use crate::reference::Ref;
use crate::toposort::{graph_nodes, has_edge};

verus! {

broadcast use vstd::std_specs::hash::group_hash_axioms, vstd::seq_lib::lemma_seq_contains_after_push;

pub open spec fn is_gate_of(v: AigView, x: u32) -> bool {
    v.nodes.contains_key(x) && v.nodes[x] is AndGate
}

/// The gates of `s`, in order.
pub open spec fn gates_in(v: AigView, s: Seq<u32>) -> Seq<u32> {
    s.filter(|x: u32| is_gate_of(v, x))
}

/// The gates in layer order: layer by layer, each layer in ascending order.
pub open spec fn gate_order(v: AigView, ls: Seq<Seq<u32>>) -> Seq<u32>
    decreases ls.len(),
{
    if ls.len() == 0 {
        Seq::empty()
    } else {
        gate_order(v, ls.drop_last()) + gates_in(v, ls.last())
    }
}

pub open spec fn neg(x: i32) -> i32 {
    (-(x as int)) as i32
}

/// The DIMACS literal of a non-constant reference: its node's variable,
/// negative when the reference is inverted.
pub open spec fn literal(mapping: Map<u32, u32>, r: Ref) -> i32 {
    if r.spec_negated() {
        neg(mapping[r.spec_id()] as i32)
    } else {
        mapping[r.spec_id()] as i32
    }
}

/// The clauses that tie variable `x` to the AND of `a` and `b`, with
/// constant arguments folded away.
pub open spec fn gate_clauses(x: i32, a: Ref, b: Ref, mapping: Map<u32, u32>) -> Seq<Seq<i32>> {
    match (a.spec_const(), b.spec_const()) {
        (Some(l), Some(r)) => if l && r {
            seq![seq![x]]
        } else {
            seq![seq![neg(x)]]
        },
        (Some(l), None) => if l {
            seq![seq![x, neg(literal(mapping, b))], seq![neg(x), literal(mapping, b)]]
        } else {
            seq![seq![neg(x)]]
        },
        (None, Some(r)) => if r {
            seq![seq![x, neg(literal(mapping, a))], seq![neg(x), literal(mapping, a)]]
        } else {
            seq![seq![neg(x)]]
        },
        (None, None) => seq![
            seq![x, neg(literal(mapping, a)), neg(literal(mapping, b))],
            seq![neg(x), literal(mapping, a)],
            seq![neg(x), literal(mapping, b)],
        ],
    }
}

/// How constant arguments fold: a true one leaves the two-way equivalence
/// with the other argument, a false one forces the output false.
pub proof fn lemma_constant_folding(x: i32, a: Ref, b: Ref, mapping: Map<u32, u32>)
    ensures
        a.spec_const() == Some(true) && b.spec_const() is None ==> gate_clauses(x, a, b, mapping) == seq![
            seq![x, neg(literal(mapping, b))],
            seq![neg(x), literal(mapping, b)],
        ],
        b.spec_const() == Some(true) && a.spec_const() is None ==> gate_clauses(x, a, b, mapping) == seq![
            seq![x, neg(literal(mapping, a))],
            seq![neg(x), literal(mapping, a)],
        ],
        a.spec_const() == Some(false) || b.spec_const() == Some(false) ==> gate_clauses(x, a, b, mapping)
            == seq![seq![neg(x)]],
        a.spec_const() is None && b.spec_const() is None ==> gate_clauses(x, a, b, mapping).len() == 3,
{
}

/// Whether literal `l` is true under an assignment of the variables.
pub open spec fn literal_true(sigma: spec_fn(int) -> bool, l: i32) -> bool {
    if l > 0 {
        sigma(l as int)
    } else {
        !sigma(-(l as int))
    }
}

pub open spec fn clause_true(sigma: spec_fn(int) -> bool, c: Seq<i32>) -> bool {
    exists|i: int| 0 <= i < c.len() && literal_true(sigma, #[trigger] c[i])
}

pub open spec fn clauses_true(sigma: spec_fn(int) -> bool, cs: Seq<Seq<i32>>) -> bool {
    forall|j: int| 0 <= j < cs.len() ==> clause_true(sigma, #[trigger] cs[j])
}

/// The value of a reference under an assignment: a constant's own value,
/// else the value of its literal.
pub open spec fn ref_truth(sigma: spec_fn(int) -> bool, mapping: Map<u32, u32>, r: Ref) -> bool {
    if r.spec_is_const() {
        r.spec_negated()
    } else {
        literal_true(sigma, literal(mapping, r))
    }
}

/// The clauses of a gate hold exactly when its variable equals the AND of
/// its arguments: the encoding is faithful, gate by gate.
pub proof fn lemma_gate_clauses_sound(
    sigma: spec_fn(int) -> bool,
    x: i32,
    a: Ref,
    b: Ref,
    mapping: Map<u32, u32>,
)
    requires
        x > 0,
        var_in_range(mapping, a),
        var_in_range(mapping, b),
    ensures
        clauses_true(sigma, gate_clauses(x, a, b, mapping)) <==> (sigma(x as int) == (ref_truth(
            sigma,
            mapping,
            a,
        ) && ref_truth(sigma, mapping, b))),
{
    let cs = gate_clauses(x, a, b, mapping);
    assert(literal_true(sigma, neg(x)) == !sigma(x as int));
    if !a.spec_is_const() {
        let la = literal(mapping, a);
        assert(literal_true(sigma, neg(la)) == !literal_true(sigma, la));
    }
    if !b.spec_is_const() {
        let lb = literal(mapping, b);
        assert(literal_true(sigma, neg(lb)) == !literal_true(sigma, lb));
    }
    if clauses_true(sigma, cs) {
        assert forall|j: int| 0 <= j < cs.len() implies clause_true(sigma, #[trigger] cs[j]) by {}
    }
    if sigma(x as int) == (ref_truth(sigma, mapping, a) && ref_truth(sigma, mapping, b)) {
        assert forall|j: int| 0 <= j < cs.len() implies clause_true(sigma, #[trigger] cs[j]) by {
            let c = cs[j];
            if literal_true(sigma, c[0]) {
            } else if c.len() > 1 && literal_true(sigma, c[1]) {
            } else if c.len() > 2 && literal_true(sigma, c[2]) {
            }
        }
    } else {
        assert(!clauses_true(sigma, cs)) by {
            assert(exists|j: int| 0 <= j < cs.len() && !clause_true(sigma, #[trigger] cs[j])) by {
                let c0 = cs[0];
                if cs.len() == 1 {
                    assert(!clause_true(sigma, c0));
                } else {
                    let c1 = cs[1];
                    if cs.len() == 2 {
                        if !clause_true(sigma, c0) {
                        } else {
                            assert(!clause_true(sigma, c1));
                        }
                    } else {
                        let c2 = cs[2];
                        if !clause_true(sigma, c0) {
                        } else if !clause_true(sigma, c1) {
                        } else {
                            assert(!clause_true(sigma, c2));
                        }
                    }
                }
            }
        }
    }
}

/// The clauses of the gates of `order`, one gate after the other.
pub open spec fn encode_gates(v: AigView, mapping: Map<u32, u32>, order: Seq<u32>) -> Seq<Seq<i32>>
    decreases order.len(),
{
    if order.len() == 0 {
        Seq::empty()
    } else {
        let g = v.nodes[order.last()]->AndGate_0;
        encode_gates(v, mapping, order.drop_last()) + gate_clauses(
            mapping[order.last()] as i32,
            g.args[0],
            g.args[1],
            mapping,
        )
    }
}

/// `clauses` and `mapping` encode the graph whose inputs-first layering is
/// `ls`: inputs take variables 1, 2, ... in input order, gates the next
/// ones in layer order, and the clauses are those of each gate in turn.
pub open spec fn is_cnf_encoding(v: AigView, ls: Seq<Seq<u32>>, clauses: Seq<Seq<i32>>, mapping: Map<u32, u32>) -> bool {
    let order = gate_order(v, ls);
    &&& forall|x: u32| #[trigger] mapping.contains_key(x) <==> (v.inputs.contains(x) || order.contains(x))
    &&& forall|i: int| 0 <= i < v.inputs.len() ==> mapping[#[trigger] v.inputs[i]] == i + 1
    &&& forall|t: int| 0 <= t < order.len() ==> mapping[#[trigger] order[t]] == v.inputs.len() + 1 + t
    &&& clauses == encode_gates(v, mapping, order)
}

pub open spec fn has_var(mapping: Map<u32, u32>, r: Ref) -> bool {
    r.spec_is_const() || mapping.contains_key(r.spec_id())
}

pub open spec fn var_in_range(mapping: Map<u32, u32>, r: Ref) -> bool {
    r.spec_is_const() || 0 < mapping[r.spec_id()] <= i32::MAX
}

fn lit(mapping: &HashMap<u32, u32>, r: Ref) -> (l: i32)
    requires
        mapping@.contains_key(r.spec_id()),
        0 < mapping@[r.spec_id()] <= i32::MAX,
    ensures
        l == literal(mapping@, r),
{
    let var = match mapping.get(&r.id()) {
        Some(v) => *v,
        None => 1,
    };
    let l = var as i32;
    if r.is_negated() {
        -l
    } else {
        l
    }
}

fn clause(lits: &[i32]) -> (r: Vec<i32>)
    ensures
        r@ == lits@,
{
    let mut r: Vec<i32> = Vec::new();
    let mut i: usize = 0;
    while i < lits.len()
        invariant
            i <= lits@.len(),
            r@ == lits@.take(i as int),
        decreases lits@.len() - i,
    {
        r.push(lits[i]);
        assert(lits@.take(i + 1) == lits@.take(i as int).push(lits@[i as int]));
        i = i + 1;
    }
    assert(lits@.take(lits@.len() as int) == lits@);
    r
}

fn clauses_for_gate(x: i32, a: Ref, b: Ref, mapping: &HashMap<u32, u32>) -> (r: Vec<Vec<i32>>)
    requires
        0 < x,
        has_var(mapping@, a),
        has_var(mapping@, b),
        var_in_range(mapping@, a),
        var_in_range(mapping@, b),
    ensures
        r@.map_values(|c: Vec<i32>| c@) == gate_clauses(x, a, b, mapping@),
{
    let mut r: Vec<Vec<i32>> = Vec::new();
    let nx = -x;
    match (a.get_const(), b.get_const()) {
        (Some(l), Some(rc)) => {
            if l && rc {
                r.push(clause(&[x]));
            } else {
                r.push(clause(&[nx]));
            }
        },
        (Some(l), None) => {
            if l {
                let lb = lit(mapping, b);
                let nlb = -lb;
                r.push(clause(&[x, nlb]));
                r.push(clause(&[nx, lb]));
            } else {
                r.push(clause(&[nx]));
            }
        },
        (None, Some(rc)) => {
            if rc {
                let la = lit(mapping, a);
                let nla = -la;
                r.push(clause(&[x, nla]));
                r.push(clause(&[nx, la]));
            } else {
                r.push(clause(&[nx]));
            }
        },
        (None, None) => {
            let la = lit(mapping, a);
            let lb = lit(mapping, b);
            let nla = -la;
            let nlb = -lb;
            r.push(clause(&[x, nla, nlb]));
            r.push(clause(&[nx, la]));
            r.push(clause(&[nx, lb]));
        },
    }
    assert(r@.map_values(|c: Vec<i32>| c@) =~= gate_clauses(x, a, b, mapping@)) by {
        assert(r@.map_values(|c: Vec<i32>| c@).len() == gate_clauses(x, a, b, mapping@).len());
        assert forall|i: int| 0 <= i < r@.len() implies r@.map_values(|c: Vec<i32>| c@)[i] =~= gate_clauses(x, a, b, mapping@)[i] by {}
    }
    r
}

/// Adding a variable for a new node leaves the clauses of earlier gates as
/// they were.
proof fn lemma_encode_stable(v: AigView, m1: Map<u32, u32>, m2: Map<u32, u32>, order: Seq<u32>)
    requires
        forall|k: u32| #[trigger] m1.contains_key(k) ==> m2.contains_key(k) && m2[k] == m1[k],
        forall|t: int|
            #![trigger order[t]]
            0 <= t < order.len() ==> m1.contains_key(order[t]) && has_var(
                m1,
                v.nodes[order[t]]->AndGate_0.args[0],
            ) && has_var(m1, v.nodes[order[t]]->AndGate_0.args[1]),
    ensures
        encode_gates(v, m1, order) == encode_gates(v, m2, order),
    decreases order.len(),
{
    if order.len() > 0 {
        let g = v.nodes[order.last()]->AndGate_0;
        assert(order.last() == order[order.len() - 1]);
        lemma_encode_stable(v, m1, m2, order.drop_last());
        let t = order.len() - 1;
        assert(m1.contains_key(order[t]));
        assert(m2[order[t]] == m1[order[t]]);
        if !g.args[0].spec_is_const() {
            assert(m1.contains_key(g.args[0].spec_id()));
            assert(m2[g.args[0].spec_id()] == m1[g.args[0].spec_id()]);
        }
        if !g.args[1].spec_is_const() {
            assert(m1.contains_key(g.args[1].spec_id()));
            assert(m2[g.args[1].spec_id()] == m1[g.args[1].spec_id()]);
        }
        assert(gate_clauses(m1[order.last()] as i32, g.args[0], g.args[1], m1) == gate_clauses(
            m2[order.last()] as i32,
            g.args[0],
            g.args[1],
            m2,
        ));
    }
}

/// A node of layer `k` not yet encoded: its variable is fresh and fits,
/// and a gate's arguments already have variables.
proof fn lemma_gate_step_ready(
    v: AigView,
    nodes: Set<u32>,
    edges: Set<(u32, u32)>,
    k: nat,
    done: Set<u32>,
    order: Seq<u32>,
    mapping: Map<u32, u32>,
    clauses: Seq<Seq<i32>>,
    id: u32,
)
    requires
        wf_view(v),
        v.latches.len() == 0,
        v.nodes.len() <= i32::MAX,
        refs_resolve(v),
        nodes == graph_nodes(dependencies(v)),
        edges == input_edges(v),
        layer(nodes, edges, k).contains(id),
        emitted(nodes, edges, k).subset_of(done),
        !done.contains(id),
        partial_encoding(v, done, order, mapping, clauses),
    ensures
        has_id(v, id),
        is_gate_of(v, id) ==> {
            &&& !mapping.contains_key(id)
            &&& mapping.len() + 1 <= i32::MAX
            &&& has_var(mapping, v.nodes[id]->AndGate_0.args[0])
            &&& has_var(mapping, v.nodes[id]->AndGate_0.args[1])
            &&& var_in_range(mapping, v.nodes[id]->AndGate_0.args[0])
            &&& var_in_range(mapping, v.nodes[id]->AndGate_0.args[1])
        },
{
    let dep = dependencies(v);
    if !dep.contains_key(id) {
        let u = choose|u: u32| #[trigger] has_edge(dep, u, id);
        let n = v.nodes[u];
        assert(crate::aig::child_ids(n).contains(id));
        let i = choose|i: int| 0 <= i < crate::aig::child_ids(n).len() && crate::aig::child_ids(n)[i] == id;
        assert(crate::aig::node_refs(n)[i].spec_id() == id);
    }
    assert(mapping.dom().subset_of(v.nodes.dom())) by {
        assert forall|x: u32| mapping.contains_key(x) implies v.nodes.contains_key(x) by {
            if v.inputs.contains(x) {
                let i = choose|i: int| 0 <= i < v.inputs.len() && v.inputs[i] == x;
                assert(v.nodes.contains_key(v.inputs[i]));
            }
        }
    }
    if is_gate_of(v, id) {
        let g = v.nodes[id]->AndGate_0;
        assert(!order.contains(id));
        assert(!v.inputs.contains(id));
        vstd::set_lib::lemma_len_subset(mapping.dom().insert(id), v.nodes.dom());
        let e = emitted(nodes, edges, k);
        assert(preds_in(edges, id, e));
        assert forall|j: int| 0 <= j < 2 implies has_var(mapping, #[trigger] g.args[j]) && var_in_range(mapping, g.args[j]) by {
            let a = g.args[j];
            assert(crate::aig::child_ids(v.nodes[id])[j] == a.spec_id());
            assert(has_edge(dep, id, a.spec_id()));
            assert(edges.contains((a.spec_id(), id)));
            assert(crate::aig::node_refs(v.nodes[id])[j] == a);
            if a.spec_id() != 0 {
                let y = a.spec_id();
                assert(done.contains(y));
                assert(v.nodes.contains_key(y));
                assert(!(v.nodes[y] is Latch));
                if v.nodes[y] is Input {
                    assert(v.inputs.contains(y));
                    let i = choose|i: int| 0 <= i < v.inputs.len() && v.inputs[i] == y;
                    assert(mapping[v.inputs[i]] == i + 1);
                } else {
                    assert(order.contains(y));
                    let t = choose|t: int| 0 <= t < order.len() && order[t] == y;
                    assert(mapping[order[t]] == v.inputs.len() + 1 + t);
                }
            }
        }
        assert(has_var(mapping, g.args[0]) && var_in_range(mapping, g.args[0]));
        assert(has_var(mapping, g.args[1]) && var_in_range(mapping, g.args[1]));
    }
}

/// Giving a gate the next variable and appending its clauses keeps the
/// encoding state consistent.
proof fn lemma_gate_step(
    v: AigView,
    done: Set<u32>,
    order: Seq<u32>,
    m0: Map<u32, u32>,
    m1: Map<u32, u32>,
    c0: Seq<Seq<i32>>,
    c1: Seq<Seq<i32>>,
    id: u32,
)
    requires
        partial_encoding(v, done, order, m0, c0),
        m0.dom().finite(),
        is_gate_of(v, id),
        !m0.contains_key(id),
        !done.contains(id),
        m0.len() + 1 <= i32::MAX,
        m1 == m0.insert(id, (m0.len() + 1) as u32),
        has_var(m0, v.nodes[id]->AndGate_0.args[0]),
        has_var(m0, v.nodes[id]->AndGate_0.args[1]),
        c1 == c0 + gate_clauses(
            (m0.len() + 1) as i32,
            v.nodes[id]->AndGate_0.args[0],
            v.nodes[id]->AndGate_0.args[1],
            m1,
        ),
    ensures
        partial_encoding(v, done.insert(id), order.push(id), m1, c1),
{
    let o1 = order.push(id);
    lemma_encode_stable(v, m0, m1, order);
    assert(o1.drop_last() == order);
    assert(o1.last() == id);
    assert(m1.dom() == m0.dom().insert(id));
    assert(m1.len() == m0.len() + 1);
    assert forall|i: int| 0 <= i < v.inputs.len() implies m1[#[trigger] v.inputs[i]] == i + 1 by {
        assert(v.inputs.contains(v.inputs[i]));
    }
    assert forall|t: int| 0 <= t < o1.len() implies m1[#[trigger] o1[t]] == v.inputs.len() + 1 + t by {
        if t < order.len() {
            assert(order.contains(order[t]));
        }
    }
    assert forall|t: int|
        #![trigger o1[t]]
        0 <= t < o1.len() implies has_var(m1, v.nodes[o1[t]]->AndGate_0.args[0]) && has_var(
            m1,
            v.nodes[o1[t]]->AndGate_0.args[1],
        ) by {
        if t < order.len() {
            assert(o1[t] == order[t]);
        }
    }
    assert(encode_gates(v, m1, o1) == encode_gates(v, m1, order) + gate_clauses(
        m1[id] as i32,
        v.nodes[id]->AndGate_0.args[0],
        v.nodes[id]->AndGate_0.args[1],
        m1,
    ));
    assert(o1.no_duplicates());
}

/// The state of the encoder after the gates among `done` got their
/// variables and clauses.
pub open spec fn partial_encoding(
    v: AigView,
    done: Set<u32>,
    order: Seq<u32>,
    mapping: Map<u32, u32>,
    clauses: Seq<Seq<i32>>,
) -> bool {
    &&& forall|x: u32| #[trigger] mapping.contains_key(x) <==> (v.inputs.contains(x) || order.contains(x))
    &&& forall|x: u32| #[trigger] order.contains(x) <==> (is_gate_of(v, x) && done.contains(x))
    &&& order.no_duplicates()
    &&& forall|i: int| 0 <= i < v.inputs.len() ==> mapping[#[trigger] v.inputs[i]] == i + 1
    &&& forall|t: int| 0 <= t < order.len() ==> mapping[#[trigger] order[t]] == v.inputs.len() + 1 + t
    &&& forall|t: int|
        #![trigger order[t]]
        0 <= t < order.len() ==> has_var(mapping, v.nodes[order[t]]->AndGate_0.args[0]) && has_var(
            mapping,
            v.nodes[order[t]]->AndGate_0.args[1],
        )
    &&& mapping.len() == v.inputs.len() + order.len()
    &&& clauses == encode_gates(v, mapping, order)
}

impl Aig {
    /// Tseitin encoding of the circuit, gate by gate in inputs-first layer
    /// order. Returns the clauses, in DIMACS signed-literal form, and the
    /// variable of each input and gate: inputs take 1, 2, ... in input
    /// order, gates the following numbers. Constant arguments are folded.
    /// Outputs are not asserted.
    pub fn to_cnf(&self) -> (r: Result<(Vec<Vec<i32>>, HashMap<u32, u32>), AigError>)
        requires
            self.wf(),
            self@.nodes.len() <= i32::MAX,
        ensures
            r is Ok <==> crate::eval::simulates(self@),
            r matches Ok((clauses, mapping)) ==> exists|ls: Seq<Seq<u32>>|
                is_layering(graph_nodes(dependencies(self@)), input_edges(self@), ls) && is_cnf_encoding(
                    self@,
                    ls,
                    clauses@.map_values(|c: Vec<i32>| c@),
                    mapping@,
                ),
            r matches Err(AigError::LatchesPresent) ==> self@.latches.len() > 0,
            r matches Err(AigError::DanglingReference(id)) ==> self@.latches.len() == 0 && !refs_resolve(self@)
                && !has_id(self@, id),
            r matches Err(AigError::Cycle) ==> self@.latches.len() == 0 && refs_resolve(self@)
                && !peels_completely(graph_nodes(dependencies(self@)), input_edges(self@)),
    {
        if self.latches().len() > 0 {
            return Err(AigError::LatchesPresent);
        }
        let layers = match self.layers_input() {
            Ok(layers) => layers,
            Err(e) => {
                return Err(e);
            },
        };
        let ghost v = self@;
        let ghost nodes = graph_nodes(dependencies(v));
        let ghost edges = input_edges(v);
        let ghost ls = layers@.map_values(|l: Vec<u32>| l@);
        let inputs = self.inputs();
        let mut mapping: HashMap<u32, u32> = HashMap::new();
        let mut i: usize = 0;
        while i < inputs.len()
            invariant
                self.wf(),
                v == self@,
                inputs@ == v.inputs,
                v.nodes.len() <= i32::MAX,
                i <= inputs@.len(),
                forall|x: u32| #[trigger] mapping@.contains_key(x) <==> v.inputs.take(i as int).contains(x),
                forall|i2: int| 0 <= i2 < i ==> mapping@[#[trigger] v.inputs[i2]] == i2 + 1,
                mapping@.len() == i,
            decreases inputs@.len() - i,
        {
            proof {
                assert(mapping@.dom().subset_of(v.nodes.dom())) by {
                    assert forall|x: u32| mapping@.contains_key(x) implies v.nodes.contains_key(x) by {
                        let i2 = choose|i2: int| 0 <= i2 < i && v.inputs.take(i as int)[i2] == x;
                        assert(v.nodes.contains_key(v.inputs[i2]));
                    }
                }
                vstd::set_lib::lemma_len_subset(mapping@.dom().insert(v.inputs[i as int]), v.nodes.dom());
                assert(!mapping@.contains_key(v.inputs[i as int])) by {
                    if mapping@.contains_key(v.inputs[i as int]) {
                        let i2 = choose|i2: int| 0 <= i2 < i && v.inputs.take(i as int)[i2] == v.inputs[i as int];
                    }
                }
            }
            mapping.insert(inputs[i], (i + 1) as u32);
            proof {
                assert(v.inputs.take(i + 1) == v.inputs.take(i as int).push(v.inputs[i as int]));
                assert forall|i2: int| 0 <= i2 < i + 1 implies mapping@[#[trigger] v.inputs[i2]] == i2 + 1 by {
                    if i2 < i {
                        assert(v.inputs[i2] != v.inputs[i as int]);
                    }
                }
                assert(mapping@.dom() == mapping@.dom());
            }
            i = i + 1;
        }
        let mut clauses: Vec<Vec<i32>> = Vec::new();
        let ghost mut order: Seq<u32> = Seq::empty();
        proof {
            assert(v.inputs.take(v.inputs.len() as int) == v.inputs);
            assert(emitted(nodes, edges, 0) == Set::<u32>::empty());
            assert(clauses@.map_values(|c: Vec<i32>| c@) =~= Seq::<Seq<i32>>::empty());
            assert(ls.take(0) =~= Seq::<Seq<u32>>::empty());
        }
        let mut k: usize = 0;
        while k < layers.len()
            invariant
                self.wf(),
                v == self@,
                v.latches.len() == 0,
                v.nodes.len() <= i32::MAX,
                refs_resolve(v),
                nodes == graph_nodes(dependencies(v)),
                edges == input_edges(v),
                ls == layers@.map_values(|l: Vec<u32>| l@),
                is_layering(nodes, edges, ls),
                k <= layers@.len(),
                order == gate_order(v, ls.take(k as int)),
                partial_encoding(v, emitted(nodes, edges, k as nat), order, mapping@, clauses@.map_values(|c: Vec<i32>| c@)),
            decreases layers@.len() - k,
        {
            let layer_k = &layers[k];
            assert(layer_k@ == ls[k as int]);
            let ghost e = emitted(nodes, edges, k as nat);
            let ghost order0 = order;
            assert(layer_k@.take(0) =~= Seq::<u32>::empty());
            assert(gates_in(v, layer_k@.take(0)) =~= Seq::<u32>::empty());
            assert(order == order0 + gates_in(v, layer_k@.take(0)));
            let mut q: usize = 0;
            while q < layer_k.len()
                invariant
                    self.wf(),
                    v == self@,
                    v.latches.len() == 0,
                    v.nodes.len() <= i32::MAX,
                    refs_resolve(v),
                    nodes == graph_nodes(dependencies(v)),
                    edges == input_edges(v),
                    e == emitted(nodes, edges, k as nat),
                    sorted_strictly(layer_k@),
                    layer_k@.to_set() == layer(nodes, edges, k as nat),
                    q <= layer_k@.len(),
                    order == order0 + gates_in(v, layer_k@.take(q as int)),
                    partial_encoding(
                        v,
                        e.union(layer_k@.take(q as int).to_set()),
                        order,
                        mapping@,
                        clauses@.map_values(|c: Vec<i32>| c@),
                    ),
                decreases layer_k@.len() - q,
            {
                let id = layer_k[q];
                let ghost done = e.union(layer_k@.take(q as int).to_set());
                proof {
                    assert(layer_k@.to_set().contains(id));
                    assert(!done.contains(id)) by {
                        if layer_k@.take(q as int).to_set().contains(id) {
                            let a = choose|a: int| 0 <= a < q && layer_k@.take(q as int)[a] == id;
                            assert(layer_k@[a] < layer_k@[q as int]);
                        }
                    }
                    lemma_gate_step_ready(v, nodes, edges, k as nat, done, order, mapping@, clauses@.map_values(|c: Vec<i32>| c@), id);
                }
                let node = self.node(id);
                match node {
                    Node::AndGate(g) => {
                        let x = mapping.len() as u32 + 1;
                        let ghost m0 = mapping@;
                        let ghost c0 = clauses@.map_values(|c: Vec<i32>| c@);
                        mapping.insert(id, x);
                        let mut new_clauses = clauses_for_gate(x as i32, g.args[0], g.args[1], &mapping);
                        let ghost added = new_clauses@;
                        let ghost before = clauses@;
                        clauses.append(&mut new_clauses);
                        proof {
                            assert(clauses@.map_values(|c: Vec<i32>| c@) =~= c0 + added.map_values(|c: Vec<i32>| c@));
                            lemma_gate_step(v, done, order, m0, mapping@, c0, clauses@.map_values(|c: Vec<i32>| c@), id);
                        }
                        proof {
                            order = order.push(id);
                        }
                    },
                    _ => {},
                }
                proof {
                    assert(layer_k@.take(q + 1) == layer_k@.take(q as int).push(id));
                    assert(done.insert(id) =~= e.union(layer_k@.take(q + 1).to_set())) by {
                        layer_k@.take(q as int).lemma_push_to_set_commute(id);
                    }
                    layer_k@.take(q as int).lemma_filter_push(id, |x: u32| is_gate_of(v, x));
                    assert(order == order0 + gates_in(v, layer_k@.take(q + 1)));
                }
                q = q + 1;
            }
            proof {
                assert(layer_k@.take(layer_k@.len() as int) == layer_k@);
                assert(e.union(layer_k@.to_set()) =~= emitted(nodes, edges, (k + 1) as nat));
                assert(ls.take(k + 1).drop_last() == ls.take(k as int));
                assert(ls.take(k + 1).last() == ls[k as int]);
            }
            k = k + 1;
        }
        proof {
            assert(ls.take(ls.len() as int) == ls);
            assert(is_cnf_encoding(v, ls, clauses@.map_values(|c: Vec<i32>| c@), mapping@));
            assert(emitted(nodes, edges, ls.len()) == nodes);
        }
        Ok((clauses, mapping))
    }
}

} // verus!
