//! Building a graph from ASCII AIGER text.
use vstd::prelude::*;
use crate::aig::{has_id, Aig, AigView};
use crate::aiger::{
    counts_after, header_of, lemma_next_line_start, line_at, line_kind, line_result, next_line_start,
    AigerError, Literal, Reader, Record,
};
use crate::node::{AigAndGate, AigInput, AigLatch, Node};
use crate::reference::Ref;

verus! {

/// The reference that an AIGER literal denotes: the encodings coincide.
pub fn lit2ref(lit: Literal) -> (r: Ref)
    ensures
        r@ == lit@,
        r == Ref::from_raw_spec(lit@),
{
    Ref::from_raw(lit.raw())
}

/// What a record line with literal values `v` does to the graph: adds an
/// input, a latch or a gate under a new id, or appends an output; symbols
/// change nothing.
pub open spec fn apply_line(g: AigView, kind: nat, v: Seq<u32>) -> Result<AigView, AigerError> {
    let id = (v[0] / 2) as u32;
    if kind == 0 {
        if v[0] % 2 == 1 {
            Err(AigerError::Inverted)
        } else if has_id(g, id) {
            Err(AigerError::DuplicateId)
        } else {
            Ok(AigView { nodes: g.nodes.insert(id, Node::Input(AigInput { id })), inputs: g.inputs.push(id), ..g })
        }
    } else if kind == 1 {
        if v[0] % 2 == 1 {
            Err(AigerError::Inverted)
        } else if has_id(g, id) {
            Err(AigerError::DuplicateId)
        } else {
            Ok(
                AigView {
                    nodes: g.nodes.insert(id, Node::Latch(AigLatch { id, next: Ref::from_raw_spec(v[1]) })),
                    latches: g.latches.push(id),
                    ..g
                },
            )
        }
    } else if kind == 2 {
        Ok(AigView { outputs: g.outputs.push(Ref::from_raw_spec(v[0])), ..g })
    } else if kind == 3 {
        if v[0] % 2 == 1 {
            Err(AigerError::Inverted)
        } else if has_id(g, id) {
            Err(AigerError::DuplicateId)
        } else {
            Ok(
                AigView {
                    nodes: g.nodes.insert(
                        id,
                        Node::AndGate(AigAndGate { id, args: [Ref::from_raw_spec(v[1]), Ref::from_raw_spec(v[2])] }),
                    ),
                    ..g
                },
            )
        }
    } else {
        Ok(g)
    }
}

/// The graph that the lines of `text` from byte `pos` on add to `g`, with
/// `counts` records of each kind still expected and `m` the header's
/// maximum; reading stops at the end or at the first comment line.
pub open spec fn build(g: AigView, text: Seq<u8>, pos: int, counts: (usize, usize, usize, usize), m: nat) -> Result<
    AigView,
    AigerError,
>
    decreases text.len() - pos,
    via build_decreases
{
    if pos < 0 || pos >= text.len() {
        Ok(g)
    } else {
        let line = line_at(text, pos);
        if line.len() > 0 && line[0] == 99 {
            Ok(g)
        } else {
            match line_result(line, counts, m) {
                Err(e) => Err(e),
                Ok(v) => match apply_line(g, line_kind(counts), v) {
                    Err(e) => Err(e),
                    Ok(w) => build(w, text, next_line_start(text, pos), counts_after(counts), m),
                },
            }
        }
    }
}

#[via_fn]
proof fn build_decreases(g: AigView, text: Seq<u8>, pos: int, counts: (usize, usize, usize, usize), m: nat) {
    if 0 <= pos < text.len() {
        lemma_next_line_start(text, pos);
    }
}

pub open spec fn empty_view() -> AigView {
    AigView { nodes: Map::empty(), inputs: Seq::empty(), latches: Seq::empty(), outputs: Seq::empty() }
}

/// The graph that ASCII AIGER text describes: its header line, then the
/// records that `build` applies to the empty graph.
pub open spec fn parse_result(text: Seq<u8>) -> Result<AigView, AigerError> {
    if text.len() == 0 {
        Err(AigerError::MissingHeader)
    } else {
        match header_of(line_at(text, 0)) {
            Err(e) => Err(e),
            Ok(h) => build(empty_view(), text, next_line_start(text, 0), (h.i, h.l, h.o, h.a), h.m as nat),
        }
    }
}

impl Aig {
    /// Reads a graph from ASCII AIGER text. Inputs, latches, outputs and
    /// gates are added in the order of their records; symbols are skipped.
    /// A node id given twice, or an inverted gate id, is an error.
    pub fn parse(input: &[u8]) -> (r: Result<Aig, AigerError>)
        ensures
            match parse_result(input@) {
                Ok(g) => r matches Ok(aig) && aig@ == g && aig.wf(),
                Err(e) => r matches Err(e2) && e2 == e,
            },
    {
        let reader = match Reader::new(input) {
            Ok(reader) => reader,
            Err(e) => {
                return Err(e);
            },
        };
        let mut records = reader.records();
        let mut aig = Aig::default();
        let ghost m = records.spec_header().m as nat;
        proof {
            assert(aig@ == empty_view());
        }
        let mut finished = false;
        while !finished
            invariant
                aig.wf(),
                input@.len() > 0,
                0 <= records.position() <= records.rest().len(),
                records.rest() == input@,
                m == records.spec_header().m as nat,
                !finished ==> !records.in_comments(),
                !finished ==> parse_result(input@) == build(aig@, input@, records.position(), records.counts(), m),
                finished ==> parse_result(input@) == Ok::<AigView, AigerError>(aig@),
            decreases input@.len() - records.position() + (if finished { 0int } else { 1int }),
        {
            let ghost pos = records.position();
            let ghost counts = records.counts();
            let ghost before = aig@;
            let ghost line = line_at(input@, pos);
            match records.next_record() {
                None => {
                    finished = true;
                },
                Some(Err(e)) => {
                    assert(0 <= pos < input@.len());
                    assert(!(line.len() > 0 && line[0] == 99));
                    assert(line_result(line, counts, m) == Err::<Seq<u32>, AigerError>(e));
                    assert(build(before, input@, pos, counts, m) == Err::<AigView, AigerError>(e));
                    return Err(e);
                },
                Some(Ok(record)) => {
                    assert(0 <= pos < input@.len());
                    assert(!(line.len() > 0 && line[0] == 99));
                    let ghost v = line_result(line, counts, m)->Ok_0;
                    let ghost kind = line_kind(counts);
                    assert(line_result(line, counts, m) is Ok);
                    let ghost applied = apply_line(before, kind, v);
                    proof {
                        if kind < 4 {
                            Literal::lemma_spec_from(v[0]);
                            if kind == 1 || kind == 3 {
                                Literal::lemma_spec_from(v[1]);
                            }
                            if kind == 3 {
                                Literal::lemma_spec_from(v[2]);
                            }
                        }
                    }
                    match record {
                        Record::Input { id } => {
                            if id.is_negated() {
                                return Err(AigerError::Inverted);
                            }
                            if aig.contains(id.index()) {
                                return Err(AigerError::DuplicateId);
                            }
                            aig.add_input(id.index());
                        },
                        Record::Latch { id, next } => {
                            if id.is_negated() {
                                return Err(AigerError::Inverted);
                            }
                            if aig.contains(id.index()) {
                                return Err(AigerError::DuplicateId);
                            }
                            aig.add_latch(id.index(), lit2ref(next));
                        },
                        Record::Output { id } => {
                            aig.add_output(lit2ref(id));
                        },
                        Record::AndGate { id, inputs } => {
                            if id.is_negated() {
                                return Err(AigerError::Inverted);
                            }
                            if aig.contains(id.index()) {
                                return Err(AigerError::DuplicateId);
                            }
                            let args = [lit2ref(inputs[0]), lit2ref(inputs[1])];
                            assert(args@ =~= [Ref::from_raw_spec(v[1]), Ref::from_raw_spec(v[2])]@);
                            aig.add_and_gate(id.index(), args);
                        },
                        Record::Symbol { .. } => {},
                    }
                    assert(applied == Ok::<AigView, AigerError>(aig@));
                },
            }
        }
        Ok(aig)
    }
}

} // verus!
