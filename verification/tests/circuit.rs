use bellpepper_core::num::AllocatedNum;
use bellpepper_core::test_cs::TestConstraintSystem;
use bellpepper_core::{ConstraintSystem, LinearCombination as Lc};
use ff::PrimeField;
use pasta_curves::Fq;
use zkmemory::nova::commitment::{combine_nodes, commit_cells};
use zkmemory::nova::memory_consistency_circuit::{NovaMemoryConsistencyCircuit, Num, Synthesis};
use zkmemory::nova::r1cs::{
    evaluate, find_violation, holds, value_of, Constraint, ConstraintKind, LinearCombination,
    Operation, Variable, Violation, WitnessKind,
};
use zkmemory::scalar::Scalar;

fn to_field(s: Scalar) -> Fq {
    let (l0, l1, l2, l3) = s.limbs();
    let mut repr = [0u8; 32];
    repr[0..8].copy_from_slice(&l0.to_le_bytes());
    repr[8..16].copy_from_slice(&l1.to_le_bytes());
    repr[16..24].copy_from_slice(&l2.to_le_bytes());
    repr[24..32].copy_from_slice(&l3.to_le_bytes());
    Fq::from_repr(repr).unwrap()
}

fn scalars(values: &[u64]) -> Vec<Scalar> {
    values.iter().map(|v| Scalar::from_u64(*v)).collect()
}

fn values_of(z: &[Num]) -> Vec<Scalar> {
    z.iter().map(|n| n.value).collect()
}

fn variable(
    inputs: &[AllocatedNum<Fq>],
    aux: &[AllocatedNum<Fq>],
    v: Variable,
) -> bellpepper_core::Variable {
    match v {
        Variable::State(i) => inputs[i].get_variable(),
        Variable::Witness(k) => aux[k].get_variable(),
    }
}

fn combination(
    lc: Lc<Fq>,
    inputs: &[AllocatedNum<Fq>],
    aux: &[AllocatedNum<Fq>],
    c: &LinearCombination,
) -> Lc<Fq> {
    let lc = lc + variable(inputs, aux, c.plus);
    match c.minus {
        Some(m) => lc - variable(inputs, aux, m),
        None => lc,
    }
}

/// Performs the operations on a constraint system of `bellpepper_core`, with
/// the state and the witness as the assignment.
fn replay(s: &Synthesis, z_in: &[Scalar]) -> TestConstraintSystem<Fq> {
    let mut cs = TestConstraintSystem::<Fq>::new();
    let mut inputs = Vec::new();
    for (i, v) in z_in.iter().enumerate() {
        let v = to_field(*v);
        inputs.push(AllocatedNum::alloc(cs.namespace(|| format!("z {}", i)), || Ok(v)).unwrap());
    }
    let mut aux: Vec<AllocatedNum<Fq>> = Vec::new();
    for op in &s.operations {
        match op {
            Operation::Allocate { kind, step } => {
                let v = to_field(s.witness[aux.len()]);
                let name = format!("{:?} {}", kind, step);
                aux.push(AllocatedNum::alloc(cs.namespace(|| name), || Ok(v)).unwrap());
            }
            Operation::Enforce(c) => {
                cs.enforce(
                    || format!("{:?} {}", c.kind, c.step),
                    |lc| combination(lc, &inputs, &aux, &c.a),
                    |lc| combination(lc, &inputs, &aux, &c.b),
                    |lc| combination(lc, &inputs, &aux, &c.c),
                );
            }
        }
    }
    cs
}

#[test]
fn commitment_of_known_memories() {
    assert_eq!(commit_cells(&scalars(&[5])), Scalar::from_u64(5));
    assert_eq!(commit_cells(&scalars(&[1, 2])), Scalar::from_u64(4));
    assert_eq!(commit_cells(&scalars(&[1, 2, 3])), Scalar::from_u64(8));
    assert_eq!(commit_cells(&scalars(&[0, 0, 0, 0])), Scalar::from_u64(3));
    assert_eq!(commit_cells(&scalars(&[0, 0, 7, 0])), Scalar::from_u64(10));
    assert_eq!(commit_cells(&scalars(&[9, 8, 7, 6, 5])), Scalar::from_u64(39));
}

#[test]
fn commitment_wraps_at_the_order_of_the_field() {
    let top = Scalar::zero().sub(Scalar::one());
    assert_eq!(commit_cells(&vec![top, Scalar::from_u64(4)]), Scalar::from_u64(4));
    assert_eq!(combine_nodes(top, top), top);
}

#[test]
fn merkle_tree_commit_is_the_commitment() {
    let circuit = NovaMemoryConsistencyCircuit::new(4, 0, vec![], vec![], vec![]);
    assert_eq!(circuit.clone().merkle_tree_commit(scalars(&[0, 0, 7, 0])), Scalar::from_u64(10));
    assert_eq!(circuit.merkle_tree_commit(scalars(&[3, 4])), Scalar::from_u64(8));
}

#[test]
fn arity_is_the_memory_and_its_commitment() {
    assert_eq!(NovaMemoryConsistencyCircuit::new(4, 0, vec![], vec![], vec![]).arity(), 5);
    assert_eq!(NovaMemoryConsistencyCircuit::new(1, 1, vec![0], vec![1], vec![2]).arity(), 2);
}

#[test]
fn new_reads_no_more_records_than_iterations() {
    let circuit = NovaMemoryConsistencyCircuit::new(2, 1, vec![0, 1], vec![1, 7], vec![5, 6]);
    let s = circuit.synthesize(&scalars(&[0, 0, 1]));
    assert_eq!(s.witness.len(), 7);
    assert_eq!(values_of(&s.z_out), scalars(&[5, 0, 6]));
    assert_eq!(s.violation, None);
}

#[test]
fn end_to_end_example() {
    let circuit = NovaMemoryConsistencyCircuit::new(4, 1, vec![2], vec![0], vec![7]);
    let z_in = scalars(&[0, 0, 0, 0, 3]);
    assert_eq!(z_in[4], commit_cells(&scalars(&[0, 0, 0, 0])));
    let s = circuit.synthesize(&z_in);
    assert_eq!(values_of(&s.z_out), scalars(&[0, 0, 7, 0, 10]));
    assert_eq!(s.z_out[4].value, commit_cells(&scalars(&[0, 0, 7, 0])));
    // The cell held 0, so the check of instruction 0 against 7 fails.
    assert_eq!(
        s.violation,
        Some(Violation { step: 0, constraint: ConstraintKind::ReadConsistency })
    );
    assert!(!replay(&s, &z_in).is_satisfied());
}

#[test]
fn a_write_is_satisfied_and_changes_the_cell() {
    let circuit = NovaMemoryConsistencyCircuit::new(4, 1, vec![2], vec![1], vec![7]);
    let z_in = scalars(&[0, 0, 0, 0, 3]);
    let s = circuit.synthesize(&z_in);
    assert_eq!(values_of(&s.z_out), scalars(&[0, 0, 7, 0, 10]));
    assert_eq!(s.violation, None);
    let cs = replay(&s, &z_in);
    assert!(cs.is_satisfied());
    assert_eq!(cs.num_constraints(), 3);
}

#[test]
fn instruction_two_is_unsatisfiable() {
    let circuit = NovaMemoryConsistencyCircuit::new(4, 1, vec![0], vec![2], vec![0]);
    let z_in = scalars(&[0, 0, 0, 0, 3]);
    let s = circuit.synthesize(&z_in);
    assert_eq!(
        s.violation,
        Some(Violation { step: 0, constraint: ConstraintKind::InstructionBoolean })
    );
    let cs = replay(&s, &z_in);
    assert!(!cs.is_satisfied());
    assert_eq!(cs.which_is_unsatisfied(), Some("InstructionBoolean 0"));
}

#[test]
fn a_read_of_another_value_is_unsatisfiable() {
    let circuit = NovaMemoryConsistencyCircuit::new(3, 1, vec![1], vec![0], vec![6]);
    let z_in = vec![
        Scalar::from_u64(4),
        Scalar::from_u64(5),
        Scalar::from_u64(9),
        commit_cells(&scalars(&[4, 5, 9])),
    ];
    let s = circuit.synthesize(&z_in);
    assert_eq!(
        s.violation,
        Some(Violation { step: 0, constraint: ConstraintKind::ReadConsistency })
    );
    let cs = replay(&s, &z_in);
    assert_eq!(cs.which_is_unsatisfied(), Some("ReadConsistency 0"));
}

#[test]
fn a_read_of_the_value_is_satisfied_and_changes_nothing() {
    let circuit = NovaMemoryConsistencyCircuit::new(3, 1, vec![1], vec![0], vec![5]);
    let z_in = vec![
        Scalar::from_u64(4),
        Scalar::from_u64(5),
        Scalar::from_u64(9),
        commit_cells(&scalars(&[4, 5, 9])),
    ];
    let s = circuit.synthesize(&z_in);
    assert_eq!(s.violation, None);
    assert_eq!(values_of(&s.z_out), z_in);
    assert!(replay(&s, &z_in).is_satisfied());
}

#[test]
fn a_wrong_commitment_is_unsatisfiable() {
    let circuit = NovaMemoryConsistencyCircuit::new(4, 1, vec![2], vec![1], vec![7]);
    let z_in = scalars(&[0, 0, 0, 0, 4]);
    let s = circuit.synthesize(&z_in);
    assert_eq!(
        s.violation,
        Some(Violation { step: 0, constraint: ConstraintKind::CommitmentValid })
    );
    assert_eq!(values_of(&s.z_out), scalars(&[0, 0, 7, 0, 10]));
    assert_eq!(replay(&s, &z_in).which_is_unsatisfied(), Some("CommitmentValid 0"));
}

#[test]
fn the_first_violation_is_reported() {
    // The second record is at fault twice; the first is fine.
    let circuit = NovaMemoryConsistencyCircuit::new(2, 2, vec![0, 1], vec![1, 5], vec![8, 9]);
    let z_in = scalars(&[0, 0, 1]);
    let s = circuit.synthesize(&z_in);
    assert_eq!(
        s.violation,
        Some(Violation { step: 1, constraint: ConstraintKind::ReadConsistency })
    );
    assert_eq!(replay(&s, &z_in).which_is_unsatisfied(), Some("ReadConsistency 1"));
}

#[test]
fn a_batch_is_applied_in_order() {
    // Write 7 to cell 2, read it back, overwrite it, and read cell 0.
    let circuit = NovaMemoryConsistencyCircuit::new(
        4,
        4,
        vec![2, 2, 2, 0],
        vec![1, 0, 1, 0],
        vec![7, 7, 9, 0],
    );
    let z_in = scalars(&[0, 0, 0, 0, 3]);
    let s = circuit.synthesize(&z_in);
    assert_eq!(s.violation, None);
    assert_eq!(values_of(&s.z_out), scalars(&[0, 0, 9, 0, 12]));
    assert_eq!(s.operations.len(), 2 + 8 * 4);
    assert_eq!(s.witness.len(), 2 + 5 * 4);
    let cs = replay(&s, &z_in);
    assert!(cs.is_satisfied());
    assert_eq!(cs.num_constraints(), 12);
    // The state that comes out is a state that the next step accepts.
    let next = NovaMemoryConsistencyCircuit::new(4, 1, vec![2], vec![0], vec![9]);
    let z_mid = values_of(&s.z_out);
    let t = next.synthesize(&z_mid);
    assert_eq!(t.violation, None);
    assert_eq!(values_of(&t.z_out), z_mid);
}

#[test]
fn no_iteration_returns_the_state() {
    let circuit = NovaMemoryConsistencyCircuit::new(2, 0, vec![], vec![], vec![]);
    let z_in = scalars(&[4, 5, 77]);
    let s = circuit.synthesize(&z_in);
    assert_eq!(values_of(&s.z_out), z_in);
    assert_eq!(s.violation, None);
    assert_eq!(
        s.operations,
        vec![
            Operation::Allocate { kind: WitnessKind::Zero, step: 0 },
            Operation::Allocate { kind: WitnessKind::One, step: 0 },
        ]
    );
    assert_eq!(s.witness, scalars(&[0, 1]));
    assert_eq!(s.z_out[0].variable, Variable::State(0));
    assert_eq!(s.z_out[2].variable, Variable::State(2));
}

#[test]
fn an_address_outside_the_memory_changes_nothing() {
    let circuit = NovaMemoryConsistencyCircuit::new(2, 1, vec![2], vec![0], vec![0]);
    let z_in = scalars(&[4, 5, 10]);
    let s = circuit.synthesize(&z_in);
    assert_eq!(values_of(&s.z_out), z_in);
    assert_eq!(s.violation, None);
    // Checked against a value that is not 0, it fails.
    let circuit = NovaMemoryConsistencyCircuit::new(2, 1, vec![9], vec![0], vec![4]);
    let s = circuit.synthesize(&z_in);
    assert_eq!(values_of(&s.z_out), z_in);
    assert_eq!(
        s.violation,
        Some(Violation { step: 0, constraint: ConstraintKind::ReadConsistency })
    );
    assert!(!replay(&s, &z_in).is_satisfied());
}

#[test]
fn the_operations_of_one_access() {
    let circuit = NovaMemoryConsistencyCircuit::new(2, 1, vec![1], vec![0], vec![5]);
    let s = circuit.synthesize(&scalars(&[4, 5, 10]));
    let one = |v: Variable| LinearCombination { plus: v, minus: None };
    let step = 0;
    assert_eq!(
        s.operations,
        vec![
            Operation::Allocate { kind: WitnessKind::Zero, step: 0 },
            Operation::Allocate { kind: WitnessKind::One, step: 0 },
            Operation::Allocate { kind: WitnessKind::Value, step },
            Operation::Allocate { kind: WitnessKind::Instruction, step },
            Operation::Allocate { kind: WitnessKind::InstructionMinusOne, step },
            Operation::Allocate { kind: WitnessKind::Commitment, step },
            Operation::Enforce(Constraint {
                kind: ConstraintKind::CommitmentValid,
                step,
                a: one(Variable::Witness(5)),
                b: one(Variable::Witness(1)),
                c: one(Variable::State(2)),
            }),
            Operation::Enforce(Constraint {
                kind: ConstraintKind::ReadConsistency,
                step,
                a: one(Variable::Witness(4)),
                b: LinearCombination {
                    plus: Variable::State(1),
                    minus: Some(Variable::Witness(2)),
                },
                c: one(Variable::Witness(0)),
            }),
            Operation::Enforce(Constraint {
                kind: ConstraintKind::InstructionBoolean,
                step,
                a: one(Variable::Witness(3)),
                b: one(Variable::Witness(4)),
                c: one(Variable::Witness(0)),
            }),
            Operation::Allocate { kind: WitnessKind::NewCommitment, step },
        ]
    );
    let minus_one = Scalar::zero().sub(Scalar::one());
    assert_eq!(
        s.witness,
        vec![
            Scalar::zero(),
            Scalar::one(),
            Scalar::from_u64(5),
            Scalar::zero(),
            minus_one,
            Scalar::from_u64(10),
            Scalar::from_u64(10),
        ]
    );
    assert_eq!(
        s.z_out,
        vec![
            Num { variable: Variable::State(0), value: Scalar::from_u64(4) },
            Num { variable: Variable::Witness(2), value: Scalar::from_u64(5) },
            Num { variable: Variable::Witness(6), value: Scalar::from_u64(10) },
        ]
    );
}

#[test]
fn assignments_are_evaluated() {
    let state = scalars(&[10, 20]);
    let witness = scalars(&[3, 4, 12]);
    assert_eq!(value_of(&state, &witness, Variable::State(1)), Scalar::from_u64(20));
    assert_eq!(value_of(&state, &witness, Variable::Witness(2)), Scalar::from_u64(12));
    assert_eq!(value_of(&state, &witness, Variable::State(2)), Scalar::zero());
    assert_eq!(value_of(&state, &witness, Variable::Witness(3)), Scalar::zero());
    let difference = LinearCombination { plus: Variable::State(0), minus: Some(Variable::Witness(0)) };
    assert_eq!(evaluate(&state, &witness, difference), Scalar::from_u64(7));
    let below = LinearCombination { plus: Variable::Witness(0), minus: Some(Variable::State(0)) };
    assert_eq!(evaluate(&state, &witness, below), Scalar::zero().sub(Scalar::from_u64(7)));
    let one = |v: Variable| LinearCombination { plus: v, minus: None };
    let product = Constraint {
        kind: ConstraintKind::CommitmentValid,
        step: 3,
        a: one(Variable::Witness(0)),
        b: one(Variable::Witness(1)),
        c: one(Variable::Witness(2)),
    };
    assert!(holds(&state, &witness, product));
    let wrong = Constraint { c: one(Variable::State(0)), ..product };
    assert!(!holds(&state, &witness, wrong));
    let operations = vec![
        Operation::Enforce(product),
        Operation::Allocate { kind: WitnessKind::Value, step: 3 },
        Operation::Enforce(Constraint { kind: ConstraintKind::InstructionBoolean, ..wrong }),
        Operation::Enforce(wrong),
    ];
    assert_eq!(
        find_violation(&operations, &state, &witness),
        Some(Violation { step: 3, constraint: ConstraintKind::InstructionBoolean })
    );
    assert_eq!(find_violation(&operations[..2].to_vec(), &state, &witness), None);
    assert_eq!(find_violation(&Vec::new(), &state, &witness), None);
}
