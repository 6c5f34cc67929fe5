//! Writing a graph as ASCII AIGER text.
use vstd::prelude::*;
use crate::aig::{keys_of, Aig, AigView};
use crate::aiger::{tag, text_of, utf8_text};
use crate::layering::sorted_strictly;
use crate::node::AigAndGate;

verus! {

/// The decimal digits of `n`.
pub open spec fn decimal_bytes(n: nat) -> Seq<u8>
    decreases n,
{
    if n < 10 {
        seq![(48 + n) as u8]
    } else {
        decimal_bytes(n / 10).push((48 + n % 10) as u8)
    }
}

/// Numbers separated by single spaces.
pub open spec fn joined(nums: Seq<nat>) -> Seq<u8>
    decreases nums.len(),
{
    if nums.len() == 0 {
        Seq::empty()
    } else if nums.len() == 1 {
        decimal_bytes(nums[0])
    } else {
        joined(nums.drop_last()) + seq![32u8] + decimal_bytes(nums.last())
    }
}

/// A line of numbers.
pub open spec fn number_line(nums: Seq<nat>) -> Seq<u8> {
    joined(nums) + seq![10u8]
}

/// The lines of several rows of numbers.
pub open spec fn number_lines(rows: Seq<Seq<nat>>) -> Seq<u8>
    decreases rows.len(),
{
    if rows.len() == 0 {
        Seq::empty()
    } else {
        number_lines(rows.drop_last()) + number_line(rows.last())
    }
}

/// The largest node id, or 0 for a graph without nodes.
pub open spec fn max_id(v: AigView) -> nat {
    if v.nodes.dom().len() == 0 {
        0
    } else {
        (choose|m: u32| v.nodes.contains_key(m) && forall|k: u32| v.nodes.contains_key(k) ==> k <= m) as nat
    }
}

/// The AIGER text of a graph whose AND gates, in ascending id order, are
/// `gates`: the header, then one line per input, latch, output and gate.
pub open spec fn aiger_text(v: AigView, gates: Seq<AigAndGate>) -> Seq<u8> {
    let header = tag() + seq![32u8] + number_line(
        seq![max_id(v), v.inputs.len(), v.latches.len(), v.outputs.len(), gates.len()],
    );
    header + number_lines(v.inputs.map_values(|id: u32| seq![2 * id as nat])) + number_lines(
        v.latches.map_values(|id: u32| seq![2 * id as nat, v.nodes[id]->Latch_0.next@ as nat]),
    ) + number_lines(v.outputs.map_values(|r: crate::reference::Ref| seq![r@ as nat])) + number_lines(
        gates.map_values(|g: AigAndGate| seq![2 * g.id as nat, g.args[0]@ as nat, g.args[1]@ as nat]),
    )
}

/// Appends the decimal digits of `n`.
fn push_decimal(out: &mut Vec<u8>, n: u64)
    ensures
        final(out)@ == old(out)@ + decimal_bytes(n as nat),
    decreases n,
{
    if n < 10 {
        out.push((48 + n) as u8);
    } else {
        push_decimal(out, n / 10);
        out.push((48 + n % 10) as u8);
    }
}

/// Appends a line of numbers.
fn push_line(out: &mut Vec<u8>, nums: &[u64])
    ensures
        final(out)@ == old(out)@ + number_line(nums@.map_values(|x: u64| x as nat)),
{
    let ghost start = out@;
    let ghost ns = nums@.map_values(|x: u64| x as nat);
    let mut i: usize = 0;
    while i < nums.len()
        invariant
            i <= nums@.len(),
            ns == nums@.map_values(|x: u64| x as nat),
            out@ == start + joined(ns.take(i as int)),
        decreases nums@.len() - i,
    {
        assert(ns.take(i + 1).drop_last() == ns.take(i as int));
        assert(ns.take(i + 1).last() == nums@[i as int] as nat);
        if i > 0 {
            out.push(32u8);
        }
        push_decimal(out, nums[i]);
        proof {
            if i == 0 {
                assert(ns.take(1) == seq![ns[0]]);
            }
            assert(out@ =~= start + joined(ns.take(i + 1)));
        }
        i = i + 1;
    }
    assert(ns.take(nums@.len() as int) == ns);
    out.push(10u8);
    assert(out@ =~= start + number_line(ns));
}

impl Aig {
    /// Appends the graph as ASCII AIGER text: the header
    /// `aag M I L O A`, with `M` the largest node id, then the inputs, the
    /// latches with their next states, the outputs, and the AND gates in
    /// ascending id order.
    pub fn write(&self, out: &mut Vec<u8>)
        requires
            self.wf(),
        ensures
            exists|gates: Seq<AigAndGate>|
                {
                    &&& sorted_strictly(gates.map_values(|g: AigAndGate| g.id))
                    &&& forall|t: int|
                        0 <= t < gates.len() ==> self@.nodes.contains_key(#[trigger] gates[t].id)
                            && self@.nodes[gates[t].id] == crate::node::Node::AndGate(gates[t])
                    &&& forall|k: u32|
                        #[trigger] self@.nodes.contains_key(k) && self@.nodes[k] is AndGate ==> exists|t: int|
                            0 <= t < gates.len() && #[trigger] gates[t].id == k
                    &&& final(out)@ == old(out)@ + aiger_text(self@, gates)
                },
    {
        let ghost v = self@;
        let ghost start = out@;
        // Header.
        let keys = keys_of(self.nodes());
        let mut m: u32 = 0;
        let mut t: usize = 0;
        while t < keys.len()
            invariant
                t <= keys@.len(),
                forall|x: u32| #[trigger] keys@.contains(x) <==> v.nodes.contains_key(x),
                forall|j: int| 0 <= j < t ==> keys@[j] <= m,
                t == 0 ==> m == 0,
                t > 0 ==> exists|j: int| 0 <= j < t && keys@[j] == m,
            decreases keys@.len() - t,
        {
            if keys[t] > m {
                m = keys[t];
            }
            t = t + 1;
        }
        proof {
            if v.nodes.dom().len() == 0 {
                if keys@.len() > 0 {
                    assert(keys@.contains(keys@[0]));
                    assert(v.nodes.contains_key(keys@[0]));
                    assert(v.nodes.dom().contains(keys@[0]));
                }
            } else {
                let x = v.nodes.dom().choose();
                assert(v.nodes.dom().contains(x));
                assert(keys@.contains(x));
                assert(keys@.len() > 0);
                let j = choose|j: int| 0 <= j < keys@.len() && keys@[j] == m;
                assert(keys@.contains(keys@[j]));
                assert(v.nodes.contains_key(m));
                assert(forall|k: u32| v.nodes.contains_key(k) ==> k <= m) by {
                    assert forall|k: u32| v.nodes.contains_key(k) implies k <= m by {
                        assert(keys@.contains(k));
                    }
                }
                let c = max_id(v);
                assert(c == m) by {
                    let cm = choose|cm: u32| v.nodes.contains_key(cm) && forall|k: u32| v.nodes.contains_key(k) ==> k <= cm;
                    assert(cm <= m);
                    assert(m <= cm);
                }
            }
        }
        let gates = self.and_gates();
        out.push(97u8);
        out.push(97u8);
        out.push(103u8);
        out.push(32u8);
        let counts: [u64; 5] = [m as u64, self.inputs().len() as u64, self.latches().len() as u64,
            self.outputs().len() as u64, gates.len() as u64];
        push_line(out, counts.as_slice());
        proof {
            assert(counts@.map_values(|x: u64| x as nat) =~= seq![max_id(v), v.inputs.len(), v.latches.len(), v.outputs.len(), gates@.len()]);
            assert(out@ =~= start + tag() + seq![32u8] + number_line(seq![max_id(v), v.inputs.len(), v.latches.len(), v.outputs.len(), gates@.len()]));
        }
        let ghost after_header = out@;
        // Inputs.
        let inputs = self.inputs();
        let ghost rows_in = v.inputs.map_values(|id: u32| seq![2 * id as nat]);
        let mut i: usize = 0;
        while i < inputs.len()
            invariant
                i <= inputs@.len(),
                inputs@ == v.inputs,
                rows_in == v.inputs.map_values(|id: u32| seq![2 * id as nat]),
                out@ == after_header + number_lines(rows_in.take(i as int)),
            decreases inputs@.len() - i,
        {
            let x = [2 * inputs[i] as u64];
            push_line(out, x.as_slice());
            proof {
                assert(rows_in.take(i + 1).drop_last() == rows_in.take(i as int));
                assert(x@.map_values(|y: u64| y as nat) =~= rows_in.take(i + 1).last());
            }
            i = i + 1;
        }
        assert(rows_in.take(inputs@.len() as int) == rows_in);
        let ghost after_inputs = out@;
        // Latches.
        let latches = self.latches();
        let ghost rows_l = v.latches.map_values(|id: u32| seq![2 * id as nat, v.nodes[id]->Latch_0.next@ as nat]);
        let mut i: usize = 0;
        while i < latches.len()
            invariant
                self.wf(),
                v == self@,
                i <= latches@.len(),
                latches@ == v.latches,
                rows_l == v.latches.map_values(|id: u32| seq![2 * id as nat, v.nodes[id]->Latch_0.next@ as nat]),
                out@ == after_inputs + number_lines(rows_l.take(i as int)),
            decreases latches@.len() - i,
        {
            let id = latches[i];
            assert(v.nodes.contains_key(v.latches[i as int]));
            assert(v.latches.contains(id));
            let latch = self.latch(id);
            let x = [2 * id as u64, latch.next.raw() as u64];
            push_line(out, x.as_slice());
            proof {
                assert(rows_l.take(i + 1).drop_last() == rows_l.take(i as int));
                assert(x@.map_values(|y: u64| y as nat) =~= rows_l.take(i + 1).last());
            }
            i = i + 1;
        }
        assert(rows_l.take(latches@.len() as int) == rows_l);
        let ghost after_latches = out@;
        // Outputs.
        let outputs = self.outputs();
        let ghost rows_o = v.outputs.map_values(|r: crate::reference::Ref| seq![r@ as nat]);
        let mut i: usize = 0;
        while i < outputs.len()
            invariant
                i <= outputs@.len(),
                outputs@ == v.outputs,
                rows_o == v.outputs.map_values(|r: crate::reference::Ref| seq![r@ as nat]),
                out@ == after_latches + number_lines(rows_o.take(i as int)),
            decreases outputs@.len() - i,
        {
            let x = [outputs[i].raw() as u64];
            push_line(out, x.as_slice());
            proof {
                assert(rows_o.take(i + 1).drop_last() == rows_o.take(i as int));
                assert(x@.map_values(|y: u64| y as nat) =~= rows_o.take(i + 1).last());
            }
            i = i + 1;
        }
        assert(rows_o.take(outputs@.len() as int) == rows_o);
        let ghost after_outputs = out@;
        // Gates.
        let ghost rows_g = gates@.map_values(|g: AigAndGate| seq![2 * g.id as nat, g.args[0]@ as nat, g.args[1]@ as nat]);
        let mut i: usize = 0;
        while i < gates.len()
            invariant
                i <= gates@.len(),
                rows_g == gates@.map_values(|g: AigAndGate| seq![2 * g.id as nat, g.args[0]@ as nat, g.args[1]@ as nat]),
                out@ == after_outputs + number_lines(rows_g.take(i as int)),
            decreases gates@.len() - i,
        {
            let g = gates[i];
            let x = [2 * g.id as u64, g.args[0].raw() as u64, g.args[1].raw() as u64];
            push_line(out, x.as_slice());
            proof {
                assert(rows_g.take(i + 1).drop_last() == rows_g.take(i as int));
                assert(x@.map_values(|y: u64| y as nat) =~= rows_g.take(i + 1).last());
            }
            i = i + 1;
        }
        assert(rows_g.take(gates@.len() as int) == rows_g);
        assert(out@ =~= start + aiger_text(v, gates@));
    }

    /// The graph as ASCII AIGER text.
    pub fn write_to_string(&self) -> (r: String)
        requires
            self.wf(),
        ensures
            exists|bytes: Seq<u8>, gates: Seq<AigAndGate>|
                {
                    &&& sorted_strictly(gates.map_values(|g: AigAndGate| g.id))
                    &&& forall|t: int|
                        0 <= t < gates.len() ==> self@.nodes.contains_key(#[trigger] gates[t].id)
                            && self@.nodes[gates[t].id] == crate::node::Node::AndGate(gates[t])
                    &&& forall|k: u32|
                        #[trigger] self@.nodes.contains_key(k) && self@.nodes[k] is AndGate ==> exists|t: int|
                            0 <= t < gates.len() && #[trigger] gates[t].id == k
                    &&& bytes == aiger_text(self@, gates)
                    &&& r@ == utf8_text(bytes)
                },
    {
        let mut buf: Vec<u8> = Vec::new();
        self.write(&mut buf);
        assert(buf@ == Seq::<u8>::empty() + buf@.subrange(0, buf@.len() as int)) by {
            assert(buf@ =~= Seq::<u8>::empty() + buf@.subrange(0, buf@.len() as int));
        }
        text_of(buf.as_slice())
    }
}

} // verus!
