//! The nodes of an AIG.
use vstd::prelude::*;
use crate::reference::Ref;

verus! {

/// A node: the synthesized constant at id 0, a free input, a latch, or a
/// two-input AND gate.
#[derive(Debug, Clone, Copy, PartialEq, Eq)]
pub enum Node {
    Zero,
    Input(AigInput),
    Latch(AigLatch),
    AndGate(AigAndGate),
}

#[derive(Debug, Clone, Copy, PartialEq, Eq, Structural)]
pub struct AigInput {
    pub id: u32,
}

/// A latch: `id` is its current state, `next` the expression of its next
/// state.
#[derive(Debug, Clone, Copy, PartialEq, Eq, Structural)]
pub struct AigLatch {
    pub id: u32,
    pub next: Ref,
}

/// An AND gate over two possibly inverted arguments.
#[derive(Debug, Clone, Copy, PartialEq, Eq)]
pub struct AigAndGate {
    pub id: u32,
    pub args: [Ref; 2],
}

impl Node {
    pub open spec fn spec_id(self) -> u32 {
        match self {
            Node::Zero => 0,
            Node::Input(input) => input.id,
            Node::Latch(latch) => latch.id,
            Node::AndGate(gate) => gate.id,
        }
    }

    /// The references that the node's combinational value reads.
    pub open spec fn spec_children(self) -> Seq<Ref> {
        match self {
            Node::AndGate(gate) => gate.args@,
            _ => Seq::empty(),
        }
    }

    pub fn input(id: u32) -> (r: Node)
        ensures
            r == Node::Input(AigInput { id }),
    {
        Node::Input(AigInput { id })
    }

    pub fn latch(id: u32, next: Ref) -> (r: Node)
        ensures
            r == Node::Latch(AigLatch { id, next }),
    {
        Node::Latch(AigLatch { id, next })
    }

    pub fn and_gate(id: u32, args: [Ref; 2]) -> (r: Node)
        ensures
            r == Node::AndGate(AigAndGate { id, args }),
    {
        Node::AndGate(AigAndGate { id, args })
    }

    pub fn id(&self) -> (r: u32)
        ensures
            r == self.spec_id(),
    {
        match self {
            Node::Zero => 0,
            Node::Input(input) => input.id,
            Node::Latch(latch) => latch.id,
            Node::AndGate(gate) => gate.id,
        }
    }

    /// The arguments of an AND gate; nothing for the other kinds.
    pub fn children(&self) -> (r: &[Ref])
        ensures
            r@ == self.spec_children(),
    {
        match self {
            Node::AndGate(gate) => gate.args.as_slice(),
            _ => &[],
        }
    }
}

} // verus!
