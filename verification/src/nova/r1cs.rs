//! A rank-1 constraint system written down as data: the variables that a
//! circuit allocates and the constraints that it enforces, in order, and what
//! it means for an assignment to satisfy them.

use crate::nova::commitment::{all_wf, values};
use crate::scalar::{mul_mod, sub_mod, Scalar};
use vstd::prelude::*;

verus! {

/// A variable of the constraint system.
#[derive(Clone, Copy, Debug, PartialEq, Eq)]
pub enum Variable {
    /// An element of the state that the step takes, by its index.
    State(usize),
    /// A variable that the circuit allocated, by its place among them.
    Witness(usize),
}

/// What an allocated variable is for.
#[derive(Clone, Copy, Debug, PartialEq, Eq)]
pub enum WitnessKind {
    /// Holds 0.
    Zero,
    /// Holds 1.
    One,
    /// The value of a trace record.
    Value,
    /// The instruction of a trace record.
    Instruction,
    /// The instruction of a trace record, less 1.
    InstructionMinusOne,
    /// The commitment to the memory before the access.
    Commitment,
    /// The commitment to the memory after the access.
    NewCommitment,
}

/// What a constraint is for.
#[derive(Clone, Copy, Debug, PartialEq, Eq)]
pub enum ConstraintKind {
    /// The commitment carried in is the commitment to the memory.
    CommitmentValid,
    /// Where the instruction is 0, the cell holds the value.
    ReadConsistency,
    /// The instruction is 0 or 1.
    InstructionBoolean,
}

/// A variable, or the difference of two.
#[derive(Clone, Copy, Debug, PartialEq, Eq)]
pub struct LinearCombination {
    pub plus: Variable,
    pub minus: Option<Variable>,
}

/// The constraint `a * b = c`.
#[derive(Clone, Copy, Debug, PartialEq, Eq)]
pub struct Constraint {
    pub kind: ConstraintKind,
    pub step: usize,
    pub a: LinearCombination,
    pub b: LinearCombination,
    pub c: LinearCombination,
}

/// One thing that the circuit does to the constraint system.
#[derive(Clone, Copy, Debug, PartialEq, Eq)]
pub enum Operation {
    /// Allocates the next witness variable, for the trace record `step`.
    Allocate { kind: WitnessKind, step: usize },
    /// Enforces a constraint.
    Enforce(Constraint),
}

/// A constraint that an assignment does not satisfy.
#[derive(Clone, Copy, Debug, PartialEq, Eq)]
pub struct Violation {
    pub step: usize,
    pub constraint: ConstraintKind,
}

/// The linear combination that is one variable.
pub open spec fn single(v: Variable) -> LinearCombination {
    LinearCombination { plus: v, minus: None }
}

/// The linear combination `plus - minus`.
pub open spec fn difference(plus: Variable, minus: Variable) -> LinearCombination {
    LinearCombination { plus, minus: Some(minus) }
}

/// What an assignment gives a variable; 0 where it does not reach.
pub open spec fn variable_value(state: Seq<nat>, witness: Seq<nat>, v: Variable) -> nat {
    match v {
        Variable::State(i) => if i < state.len() {
            state[i as int]
        } else {
            0
        },
        Variable::Witness(k) => if k < witness.len() {
            witness[k as int]
        } else {
            0
        },
    }
}

/// What a linear combination comes to under an assignment.
pub open spec fn combination_value(
    state: Seq<nat>,
    witness: Seq<nat>,
    lc: LinearCombination,
) -> nat {
    match lc.minus {
        None => variable_value(state, witness, lc.plus),
        Some(m) => sub_mod(
            variable_value(state, witness, lc.plus),
            variable_value(state, witness, m),
        ),
    }
}

/// The assignment satisfies the constraint.
pub open spec fn constraint_holds(state: Seq<nat>, witness: Seq<nat>, c: Constraint) -> bool {
    mul_mod(combination_value(state, witness, c.a), combination_value(state, witness, c.b))
        == combination_value(state, witness, c.c)
}

/// The first constraint among the operations that the assignment does not
/// satisfy.
pub open spec fn first_violation(
    operations: Seq<Operation>,
    state: Seq<nat>,
    witness: Seq<nat>,
) -> Option<Violation>
    decreases operations.len(),
{
    if operations.len() == 0 {
        None
    } else {
        match first_violation(operations.drop_last(), state, witness) {
            Some(v) => Some(v),
            None => match operations.last() {
                Operation::Enforce(c) => if constraint_holds(state, witness, c) {
                    None
                } else {
                    Some(Violation { step: c.step, constraint: c.kind })
                },
                Operation::Allocate { .. } => None,
            },
        }
    }
}

/// What the assignment gives the variable.
pub fn value_of(state: &Vec<Scalar>, witness: &Vec<Scalar>, v: Variable) -> (r: Scalar)
    requires
        all_wf(state@),
        all_wf(witness@),
    ensures
        r.wf(),
        r@ == variable_value(values(state@), values(witness@), v),
{
    match v {
        Variable::State(i) => if i < state.len() {
            state[i]
        } else {
            Scalar::zero()
        },
        Variable::Witness(k) => if k < witness.len() {
            witness[k]
        } else {
            Scalar::zero()
        },
    }
}

/// What the linear combination comes to under the assignment.
pub fn evaluate(state: &Vec<Scalar>, witness: &Vec<Scalar>, lc: LinearCombination) -> (r: Scalar)
    requires
        all_wf(state@),
        all_wf(witness@),
    ensures
        r.wf(),
        r@ == combination_value(values(state@), values(witness@), lc),
{
    let plus = value_of(state, witness, lc.plus);
    match lc.minus {
        None => plus,
        Some(m) => plus.sub(value_of(state, witness, m)),
    }
}

/// Whether the assignment satisfies the constraint.
pub fn holds(state: &Vec<Scalar>, witness: &Vec<Scalar>, c: Constraint) -> (r: bool)
    requires
        all_wf(state@),
        all_wf(witness@),
    ensures
        r == constraint_holds(values(state@), values(witness@), c),
{
    let a = evaluate(state, witness, c.a);
    let b = evaluate(state, witness, c.b);
    let c = evaluate(state, witness, c.c);
    let product = a.mul(b);
    proof {
        Scalar::lemma_view_injective(product, c);
    }
    product == c
}

/// The first constraint among the operations that the assignment does not
/// satisfy, if there is one.
pub fn find_violation(
    operations: &Vec<Operation>,
    state: &Vec<Scalar>,
    witness: &Vec<Scalar>,
) -> (r: Option<Violation>)
    requires
        all_wf(state@),
        all_wf(witness@),
    ensures
        r == first_violation(operations@, values(state@), values(witness@)),
{
    let mut k: usize = 0;
    while k < operations.len()
        invariant
            k <= operations.len(),
            all_wf(state@),
            all_wf(witness@),
            first_violation(operations@.subrange(0, k as int), values(state@), values(witness@))
                is None,
        decreases operations.len() - k,
    {
        assert(operations@.subrange(0, k + 1).drop_last() == operations@.subrange(0, k as int));
        match operations[k] {
            Operation::Enforce(c) => {
                if !holds(state, witness, c) {
                    proof {
                        lemma_violation_stays(
                            operations@,
                            k + 1,
                            values(state@),
                            values(witness@),
                        );
                    }
                    return Some(Violation { step: c.step, constraint: c.kind });
                }
            },
            Operation::Allocate { .. } => {},
        }
        k = k + 1;
    }
    assert(operations@.subrange(0, k as int) == operations@);
    None
}

/// A violation among the first `k` operations is the first violation of them
/// all.
pub proof fn lemma_violation_stays(
    operations: Seq<Operation>,
    k: int,
    state: Seq<nat>,
    witness: Seq<nat>,
)
    requires
        0 <= k <= operations.len(),
        first_violation(operations.subrange(0, k), state, witness) is Some,
    ensures
        first_violation(operations, state, witness) == first_violation(
            operations.subrange(0, k),
            state,
            witness,
        ),
    decreases operations.len() - k,
{
    if k == operations.len() {
        assert(operations.subrange(0, k) == operations);
    } else {
        assert(operations.subrange(0, k + 1).drop_last() == operations.subrange(0, k));
        lemma_violation_stays(operations, k + 1, state, witness);
    }
}

/// The first violation of two runs of operations, one after the other, is
/// that of the first run, or else that of the second.
pub proof fn lemma_violation_of_concat(
    first: Seq<Operation>,
    second: Seq<Operation>,
    state: Seq<nat>,
    witness: Seq<nat>,
)
    ensures
        first_violation(first + second, state, witness) == match first_violation(
            first,
            state,
            witness,
        ) {
            Some(v) => Some(v),
            None => first_violation(second, state, witness),
        },
    decreases second.len(),
{
    if second.len() == 0 {
        assert(first + second == first);
    } else {
        assert((first + second).drop_last() == first + second.drop_last());
        lemma_violation_of_concat(first, second.drop_last(), state, witness);
    }
}

} // verus!
