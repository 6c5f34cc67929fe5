use aigerox::aig::{Aig, AigError};
use aigerox::node::{AigAndGate, AigInput, Node};
use aigerox::reference::Ref;

#[test]
fn test_layers() {
    let mut aig = Aig::default();

    aig.add_input(1);
    aig.add_input(2);
    aig.add_input(3);
    aig.add_and_gate(4, [Ref::positive(1), Ref::negative(2)]);
    aig.add_and_gate(5, [Ref::negative(4), Ref::positive(3)]);
    aig.add_and_gate(6, [Ref::negative(1), Ref::positive(5)]);
    aig.add_output(Ref::negative(6));

    let layers_input = aig.layers_input().unwrap();
    assert_eq!(layers_input.len(), 4);
    assert_eq!(layers_input[0], vec![1, 2, 3]);
    assert_eq!(layers_input[1], vec![4]);
    assert_eq!(layers_input[2], vec![5]);
    assert_eq!(layers_input[3], vec![6]);

    let layers_output = aig.layers_output().unwrap();
    assert_eq!(layers_output.len(), 4);
    assert_eq!(layers_output[0], vec![6]);
    assert_eq!(layers_output[1], vec![5]);
    assert_eq!(layers_output[2], vec![3, 4]);
    assert_eq!(layers_output[3], vec![1, 2]);
}

#[test]
fn test_eval() {
    let mut aig = Aig::default();

    aig.add_input(1);
    aig.add_input(2);
    aig.add_input(3);

    // g1 = x1 and x2
    aig.add_and_gate(4, [Ref::positive(1), Ref::positive(2)]);
    // g2 = ~g1 and x3
    aig.add_and_gate(5, [Ref::negative(4), Ref::positive(3)]);
    // g3 = x1 and ~g2
    aig.add_and_gate(6, [Ref::positive(1), Ref::negative(5)]);
    // g4 = g3 and 0
    aig.add_and_gate(7, [Ref::positive(6), Ref::constant(false)]);

    aig.add_output(Ref::positive(6));

    let input_values = vec![true, false, true]; // [x1, x2, x3]
    println!("input: {:?}", input_values);
    let values = aig.eval(input_values).unwrap();
    println!("values: {:?}", values);
    assert_eq!(values[&1], true); // x1
    assert_eq!(values[&2], false); // x2
    assert_eq!(values[&3], true); // x3
    assert_eq!(values[&4], false); // g1 = x1 and x2
    assert_eq!(values[&5], true); // g2 = ~g1 and x3
    assert_eq!(values[&6], false); // g3 = x1 and ~g2
    assert_eq!(values[&7], false); // g4 = g3 and 0
}

fn output_value(aig: &Aig, values: &std::collections::BTreeMap<u32, bool>, i: usize) -> bool {
    let r = aig.outputs()[i];
    match r.get_const() {
        Some(b) => b,
        None => values[&r.id()] ^ r.is_negated(),
    }
}

#[test]
fn eval_example_output_is_false() {
    let mut aig = Aig::default();
    aig.add_input(1);
    aig.add_input(2);
    aig.add_input(3);
    aig.add_and_gate(4, [Ref::positive(1), Ref::positive(2)]);
    aig.add_and_gate(5, [Ref::negative(4), Ref::positive(3)]);
    aig.add_and_gate(6, [Ref::positive(1), Ref::negative(5)]);
    aig.add_output(Ref::positive(6));
    let values = aig.eval(vec![true, false, true]).unwrap();
    assert_eq!(values.len(), 6);
    assert_eq!(values[&4], false);
    assert_eq!(values[&5], true);
    assert_eq!(values[&6], false);
    assert_eq!(output_value(&aig, &values, 0), false);
}

#[test]
fn constant_false_absorbs_either_side() {
    for other in [false, true] {
        let mut aig = Aig::default();
        aig.add_input(1);
        aig.add_and_gate(2, [Ref::constant(false), Ref::positive(1)]);
        aig.add_and_gate(3, [Ref::negative(1), Ref::constant(false)]);
        aig.add_and_gate(4, [Ref::positive(1), Ref::constant(true)]);
        let values = aig.eval(vec![other]).unwrap();
        assert_eq!(values[&2], false);
        assert_eq!(values[&3], false);
        assert_eq!(values[&4], other);
    }
}

#[test]
fn eval_gate_listed_before_its_arguments() {
    let mut aig = Aig::default();
    aig.add_and_gate(5, [Ref::positive(3), Ref::negative(4)]);
    aig.add_input(4);
    aig.add_and_gate(3, [Ref::negative(4), Ref::constant(true)]);
    let values = aig.eval(vec![false]).unwrap();
    assert_eq!(values[&3], true);
    assert_eq!(values[&5], true);
}

#[test]
fn dangling_reference_is_reported() {
    let mut aig = Aig::default();
    aig.add_input(1);
    aig.add_and_gate(2, [Ref::positive(1), Ref::positive(9)]);
    assert_eq!(aig.layers_input(), Err(AigError::DanglingReference(9)));
    assert_eq!(aig.layers_output(), Err(AigError::DanglingReference(9)));
    assert_eq!(aig.eval(vec![true]), Err(AigError::DanglingReference(9)));
    assert_eq!(aig.to_cnf().map(|_| ()), Err(AigError::DanglingReference(9)));
}

#[test]
fn dangling_output_is_reported() {
    let mut aig = Aig::default();
    aig.add_input(1);
    aig.add_output(Ref::negative(3));
    assert_eq!(aig.layers_input(), Err(AigError::DanglingReference(3)));
}

#[test]
fn combinational_cycle_is_reported() {
    let mut aig = Aig::default();
    aig.add_input(1);
    aig.add_and_gate(2, [Ref::positive(1), Ref::positive(3)]);
    aig.add_and_gate(3, [Ref::positive(2), Ref::negative(1)]);
    assert_eq!(aig.layers_input(), Err(AigError::Cycle));
    assert_eq!(aig.layers_output(), Err(AigError::Cycle));
    assert_eq!(aig.eval(vec![true]), Err(AigError::Cycle));
    assert_eq!(aig.to_cnf().map(|_| ()), Err(AigError::Cycle));
}

#[test]
fn latch_feedback_is_not_a_cycle() {
    let mut aig = Aig::default();
    aig.add_input(1);
    aig.add_latch(2, Ref::negative(3));
    aig.add_and_gate(3, [Ref::positive(1), Ref::positive(2)]);
    assert_eq!(aig.layers_input().unwrap(), vec![vec![1, 2], vec![3]]);
    assert_eq!(aig.eval(vec![true]), Err(AigError::LatchesPresent));
}

#[test]
fn chain_layers_are_reversed_between_orientations() {
    let mut aig = Aig::default();
    aig.add_input(1);
    aig.add_and_gate(2, [Ref::positive(1), Ref::negative(1)]);
    aig.add_and_gate(3, [Ref::negative(2), Ref::positive(2)]);
    aig.add_and_gate(4, [Ref::positive(3), Ref::positive(3)]);
    let input = aig.layers_input().unwrap();
    let output = aig.layers_output().unwrap();
    assert_eq!(input.len(), 4);
    for k in 0..4 {
        assert_eq!(input[k], output[3 - k]);
    }
}

#[test]
fn constant_is_a_source_node() {
    let mut aig = Aig::default();
    aig.add_input(1);
    aig.add_and_gate(2, [Ref::positive(1), Ref::constant(true)]);
    assert_eq!(aig.layers_input().unwrap(), vec![vec![0, 1], vec![2]]);
    assert_eq!(aig.layers_output().unwrap(), vec![vec![2], vec![0, 1]]);
}

#[test]
fn empty_graph_has_no_layers() {
    let aig = Aig::default();
    assert!(aig.layers_input().unwrap().is_empty());
    assert!(aig.eval(vec![]).unwrap().is_empty());
}

#[test]
fn accessors_report_the_graph() {
    let mut aig = Aig::default();
    aig.add_input(2);
    aig.add_input(1);
    aig.add_latch(5, Ref::positive(4));
    aig.add_and_gate(4, [Ref::positive(1), Ref::negative(2)]);
    aig.add_and_gate(3, [Ref::negative(1), Ref::negative(2)]);
    aig.add_output(Ref::negative(4));
    assert_eq!(aig.inputs(), &[2, 1]);
    assert_eq!(aig.latches(), &[5]);
    assert_eq!(aig.outputs(), &[Ref::negative(4)]);
    assert_eq!(aig.nodes().len(), 5);
    assert!(aig.is_input(1));
    assert!(!aig.is_input(3));
    assert!(aig.is_gate(3));
    assert!(!aig.is_gate(0));
    assert!(aig.is_latch(5));
    assert!(aig.contains(0));
    assert!(aig.contains(4));
    assert!(!aig.contains(6));
    assert_eq!(aig.node(0), Node::Zero);
    assert_eq!(aig.node(2), Node::Input(AigInput { id: 2 }));
    assert_eq!(aig.input(1), AigInput { id: 1 });
    assert_eq!(aig.latch(5).next, Ref::positive(4));
    assert_eq!(
        aig.gate(4),
        AigAndGate {
            id: 4,
            args: [Ref::positive(1), Ref::negative(2)]
        }
    );
    let gates = aig.and_gates();
    assert_eq!(gates.iter().map(|g| g.id).collect::<Vec<_>>(), vec![3, 4]);
    assert_eq!(aig.node(4).children(), &[Ref::positive(1), Ref::negative(2)]);
    assert!(aig.node(1).children().is_empty());
    assert_eq!(aig.node(5).id(), 5);
}

#[test]
fn new_builds_from_parts() {
    let mut nodes = std::collections::HashMap::new();
    nodes.insert(1, Node::input(1));
    nodes.insert(2, Node::and_gate(2, [Ref::negative(1), Ref::constant(true)]));
    let aig = Aig::new(nodes, vec![1], vec![Ref::positive(2)]);
    let values = aig.eval(vec![false]).unwrap();
    assert_eq!(values[&2], true);
    assert_eq!(aig.node(2), Node::AndGate(AigAndGate { id: 2, args: [Ref::negative(1), Ref::constant(true)] }));
    assert_eq!(Node::latch(3, Ref::positive(1)).id(), 3);
}
