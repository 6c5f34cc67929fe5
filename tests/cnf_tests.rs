use aigerox::aig::{Aig, AigError};
use aigerox::reference::Ref;

#[test]
fn test_to_cnf() {
    let mut aig = Aig::default();

    aig.add_input(1);
    aig.add_input(2);
    aig.add_input(3);
    aig.add_and_gate(4, [Ref::positive(1), Ref::positive(2)]); // 4 = 1 and 2
    aig.add_and_gate(5, [Ref::positive(4), Ref::positive(3)]); // 5 = 4 and 3
    aig.add_and_gate(6, [Ref::positive(5), Ref::constant(false)]); // 6 = 5 and 0
    aig.add_output(Ref::positive(6));

    let layers = aig.layers_input().unwrap();
    println!("Backward (input) layers: {}", layers.len());
    for layer in layers.iter() {
        println!("  {:?}", layer);
    }

    let (clauses, _) = aig.to_cnf().unwrap();
    println!("CNF of {} clauses:", clauses.len());
    for clause in clauses.iter() {
        println!(
            "{}0",
            clause.iter().map(|x| format!("{} ", x)).collect::<String>()
        );
    }
    assert_eq!(clauses.len(), 7);
}

fn satisfied(clauses: &[Vec<i32>], assignment: &[bool]) -> bool {
    clauses.iter().all(|c| {
        c.iter().any(|&l| {
            let v = assignment[l.unsigned_abs() as usize - 1];
            if l > 0 {
                v
            } else {
                !v
            }
        })
    })
}

#[test]
fn single_gate_gives_three_tseitin_clauses() {
    let mut aig = Aig::default();
    aig.add_input(1);
    aig.add_input(2);
    aig.add_and_gate(3, [Ref::positive(1), Ref::positive(2)]);
    let (clauses, mapping) = aig.to_cnf().unwrap();
    assert_eq!(mapping[&1], 1);
    assert_eq!(mapping[&2], 2);
    assert_eq!(mapping[&3], 3);
    assert_eq!(clauses, vec![vec![3, -1, -2], vec![-3, 1], vec![-3, 2]]);
    for x1 in [false, true] {
        for x2 in [false, true] {
            for g in [false, true] {
                let sat = satisfied(&clauses, &[x1, x2, g]);
                assert_eq!(sat, g == (x1 && x2));
            }
            let values = aig.eval(vec![x1, x2]).unwrap();
            assert!(satisfied(&clauses, &[x1, x2, values[&3]]));
        }
    }
}

#[test]
fn constant_true_argument_gives_two_clauses() {
    let mut aig = Aig::default();
    aig.add_input(1);
    aig.add_and_gate(2, [Ref::constant(true), Ref::negative(1)]);
    aig.add_and_gate(3, [Ref::positive(1), Ref::constant(true)]);
    let (clauses, mapping) = aig.to_cnf().unwrap();
    assert_eq!(mapping[&2], 2);
    assert_eq!(mapping[&3], 3);
    assert_eq!(clauses, vec![vec![2, 1], vec![-2, -1], vec![3, -1], vec![-3, 1]]);
}

#[test]
fn constant_false_argument_gives_unit_clause() {
    let mut aig = Aig::default();
    aig.add_input(1);
    aig.add_and_gate(2, [Ref::constant(false), Ref::positive(1)]);
    aig.add_and_gate(3, [Ref::negative(1), Ref::constant(false)]);
    aig.add_and_gate(4, [Ref::constant(true), Ref::constant(true)]);
    aig.add_and_gate(5, [Ref::constant(true), Ref::constant(false)]);
    let (clauses, _) = aig.to_cnf().unwrap();
    assert_eq!(clauses, vec![vec![-2], vec![-3], vec![4], vec![-5]]);
}

#[test]
fn gate_variables_follow_layers_then_ids() {
    let mut aig = Aig::default();
    aig.add_input(10);
    aig.add_input(7);
    aig.add_and_gate(3, [Ref::positive(8), Ref::positive(10)]);
    aig.add_and_gate(8, [Ref::positive(7), Ref::negative(10)]);
    aig.add_and_gate(5, [Ref::positive(7), Ref::positive(10)]);
    let (clauses, mapping) = aig.to_cnf().unwrap();
    assert_eq!(mapping[&10], 1);
    assert_eq!(mapping[&7], 2);
    assert_eq!(mapping[&5], 3);
    assert_eq!(mapping[&8], 4);
    assert_eq!(mapping[&3], 5);
    assert_eq!(mapping.len(), 5);
    assert_eq!(clauses.len(), 9);
    assert_eq!(clauses[6], vec![5, -4, -1]);
}

#[test]
fn latches_are_rejected_by_the_encoder() {
    let mut aig = Aig::default();
    aig.add_latch(1, Ref::negative(1));
    aig.add_output(Ref::positive(1));
    assert_eq!(aig.to_cnf().map(|_| ()), Err(AigError::LatchesPresent));
}
