//! Why the constraints of the memory consistency circuit mean what they are
//! meant to: the values that the circuit assigns satisfy them exactly where
//! the accesses are valid on the state that came in.

use crate::nova::commitment::{below_modulus, commit, lemma_commit_below_modulus};
use crate::nova::memory_consistency_circuit::{
    access_consistent, access_in_range, accesses_in_range, apply, circuit_operations,
    circuit_witness, consistent, consistent_upto, lemma_memory_len, lemma_witness_len,
    memory_after, selected, state_after, step_operations, target, variables_after, witness_base,
    Access,
};
use crate::nova::r1cs::{
    constraint_holds, first_violation, lemma_violation_of_concat, variable_value, Operation,
};
use crate::scalar::{modulus, mul_mod, sub_mod};
use vstd::arithmetic::div_mod::{lemma_fundamental_div_mod_converse_mod, lemma_small_mod};
use vstd::prelude::*;

verus! {

/// The assignment satisfies the operation: it is an allocation, or a
/// constraint that holds.
pub open spec fn operation_holds(state: Seq<nat>, witness: Seq<nat>, op: Operation) -> bool {
    match op {
        Operation::Enforce(c) => constraint_holds(state, witness, c),
        Operation::Allocate { .. } => true,
    }
}

/// There is no violation exactly where every operation holds.
pub proof fn lemma_no_violation_iff_all_hold(
    operations: Seq<Operation>,
    state: Seq<nat>,
    witness: Seq<nat>,
)
    ensures
        first_violation(operations, state, witness) is None <==> forall|i: int|
            0 <= i < operations.len() ==> operation_holds(state, witness, #[trigger] operations[i]),
    decreases operations.len(),
{
    if operations.len() > 0 {
        let front = operations.drop_last();
        lemma_no_violation_iff_all_hold(front, state, witness);
        if first_violation(operations, state, witness) is None {
            assert forall|i: int| 0 <= i < operations.len() implies operation_holds(
                state,
                witness,
                #[trigger] operations[i],
            ) by {
                if i < front.len() {
                    assert(front[i] == operations[i]);
                }
            }
        } else if first_violation(front, state, witness) is None {
            assert(!operation_holds(state, witness, operations[operations.len() - 1]));
        } else {
            let i = choose|i: int|
                0 <= i < front.len() && !operation_holds(state, witness, #[trigger] front[i]);
            assert(front[i] == operations[i]);
        }
    }
}

/// `instruction * (instruction - 1)` is 0 in the field exactly where the
/// instruction is 0 or 1.
pub proof fn lemma_boolean_constraint(instruction: nat)
    requires
        instruction <= u64::MAX,
    ensures
        mul_mod(instruction, sub_mod(instruction, 1)) == 0 <==> (instruction == 0 || instruction
            == 1),
{
    if instruction == 0 {
        assert(0 * sub_mod(instruction, 1) == 0) by (nonlinear_arith);
    } else {
        let less = (instruction - 1) as nat;
        assert(sub_mod(instruction, 1) == less);
        let product = instruction * less;
        assert(product <= 0xffff_ffff_ffff_ffff * 0xffff_ffff_ffff_ffff && (product == 0 <==> less
            == 0)) by (nonlinear_arith)
            requires
                product == instruction * less,
                1 <= instruction <= 0xffff_ffff_ffff_ffff,
                less == instruction - 1,
        ;
        lemma_small_mod(product, modulus());
    }
}

/// Given an instruction that is 0 or 1, `(instruction - 1) * (cell - value)`
/// is 0 in the field exactly where the instruction is 1 or the cell holds the
/// value.
pub proof fn lemma_read_constraint(instruction: nat, cell: nat, value: nat)
    requires
        instruction == 0 || instruction == 1,
        cell < modulus(),
        value < modulus(),
    ensures
        mul_mod(sub_mod(instruction, 1), sub_mod(cell, value)) == 0 <==> (instruction == 0 ==> cell
            == value),
{
    let q = modulus() as int;
    let gap = sub_mod(cell, value);
    if cell >= value {
        lemma_small_mod((cell - value) as nat, modulus());
    } else {
        lemma_fundamental_div_mod_converse_mod(cell - value, q, -1, cell - value + q);
    }
    assert(gap == 0 <==> cell == value);
    if instruction == 1 {
        assert(sub_mod(instruction, 1) == 0);
        assert(0 * gap == 0) by (nonlinear_arith);
    } else {
        lemma_fundamental_div_mod_converse_mod(-1, q, -1, q - 1);
        assert(sub_mod(instruction, 1) == q - 1);
        if gap == 0 {
            assert((q - 1) * 0 == 0) by (nonlinear_arith);
        } else {
            assert((q - 1) * gap == (gap - 1) * q + (q - gap)) by (nonlinear_arith);
            lemma_fundamental_div_mod_converse_mod((q - 1) * gap, q, gap - 1, q - gap);
        }
    }
}

/// The memory stays within the field under accesses that are in range.
pub proof fn lemma_memory_below_modulus(accesses: Seq<Access>, memory: Seq<nat>, k: nat)
    requires
        k <= accesses.len(),
        accesses_in_range(accesses),
        below_modulus(memory),
    ensures
        below_modulus(memory_after(accesses, memory, k)),
    decreases k,
{
    if k > 0 {
        lemma_memory_below_modulus(accesses, memory, (k - 1) as nat);
        assert(access_in_range(accesses[k - 1]));
    }
}

/// Where the variables that the circuit allocates for the access `j` stand in
/// the values of all that it allocates, and what they hold; and that the
/// first two variables hold 0 and 1.
pub proof fn lemma_witness_of_step(accesses: Seq<Access>, state: Seq<nat>, j: nat, n: nat)
    requires
        j < n,
    ensures
        circuit_witness(accesses, state, n).len() == witness_base(n),
        circuit_witness(accesses, state, n)[0] == 0,
        circuit_witness(accesses, state, n)[1] == 1,
        circuit_witness(accesses, state, n)[witness_base(j) as int] == accesses[j as int].value,
        circuit_witness(accesses, state, n)[witness_base(j) as int + 1] == accesses[j as int].instruction,
        circuit_witness(accesses, state, n)[witness_base(j) as int + 2] == sub_mod(
            accesses[j as int].instruction,
            1,
        ),
        circuit_witness(accesses, state, n)[witness_base(j) as int + 3] == commit(
            memory_after(accesses, state.drop_last(), j),
        ),
        circuit_witness(accesses, state, n)[witness_base(j) as int + 4] == commit(
            memory_after(accesses, state.drop_last(), (j + 1) as nat),
        ),
    decreases n,
{
    lemma_witness_constants(accesses, state, n);
    lemma_witness_len(accesses, state, (n - 1) as nat);
    if j + 1 < n {
        lemma_witness_of_step(accesses, state, j, (n - 1) as nat);
    }
}

/// The first two allocated variables hold 0 and 1.
pub proof fn lemma_witness_constants(accesses: Seq<Access>, state: Seq<nat>, n: nat)
    ensures
        circuit_witness(accesses, state, n).len() == witness_base(n),
        circuit_witness(accesses, state, n)[0] == 0,
        circuit_witness(accesses, state, n)[1] == 1,
    decreases n,
{
    lemma_witness_len(accesses, state, n);
    if n > 0 {
        lemma_witness_len(accesses, state, (n - 1) as nat);
        lemma_witness_constants(accesses, state, (n - 1) as nat);
    }
}

/// Under the values that the circuit assigns, the variables of the state
/// after the first `k` accesses hold that state.
pub proof fn lemma_variables_hold_state(
    accesses: Seq<Access>,
    memory_len: nat,
    state: Seq<nat>,
    k: nat,
    n: nat,
    i: int,
)
    requires
        k <= n,
        state.len() == memory_len + 1,
        0 <= i <= memory_len,
        memory_len < usize::MAX,
        witness_base(n) <= usize::MAX,
    ensures
        variable_value(
            state,
            circuit_witness(accesses, state, n),
            variables_after(accesses, memory_len, k)[i],
        ) == state_after(accesses, state, k)[i],
    decreases k,
{
    if k > 0 {
        let j = (k - 1) as nat;
        lemma_witness_of_step(accesses, state, j, n);
        lemma_memory_len(accesses, state.drop_last(), j);
        lemma_memory_len(accesses, state.drop_last(), k);
        if i != memory_len && i != accesses[j as int].address {
            lemma_variables_hold_state(accesses, memory_len, state, j, n, i);
        }
    }
}

/// The values that the circuit assigns satisfy the constraints of the access
/// `j` exactly where the access is valid on the memory before it and, for
/// the first access, the commitment that came in is that of the memory.
pub proof fn lemma_step_satisfied(
    accesses: Seq<Access>,
    memory_len: nat,
    state: Seq<nat>,
    j: nat,
)
    requires
        j < accesses.len(),
        memory_len >= 1,
        state.len() == memory_len + 1,
        below_modulus(state),
        accesses_in_range(accesses),
        memory_len < usize::MAX,
        witness_base(accesses.len()) <= usize::MAX,
    ensures
        first_violation(
            step_operations(
                j,
                variables_after(accesses, memory_len, j),
                memory_len,
                accesses[j as int],
            ),
            state,
            circuit_witness(accesses, state, accesses.len()),
        ) is None <==> {
            &&& j == 0 ==> state.last() == commit(state.drop_last())
            &&& access_consistent(memory_after(accesses, state.drop_last(), j), accesses[j as int])
        },
{
    let n = accesses.len();
    let access = accesses[j as int];
    let witness = circuit_witness(accesses, state, n);
    let variables = variables_after(accesses, memory_len, j);
    let memory = memory_after(accesses, state.drop_last(), j);
    let ops = step_operations(j, variables, memory_len, access);
    let base = witness_base(j);
    lemma_no_violation_iff_all_hold(ops, state, witness);
    lemma_witness_of_step(accesses, state, j, n);
    lemma_memory_len(accesses, state.drop_last(), j);
    assert(below_modulus(state.drop_last()));
    lemma_memory_below_modulus(accesses, state.drop_last(), j);
    lemma_commit_below_modulus(memory);
    lemma_small_mod(commit(memory), modulus());
    assert(access_in_range(access));

    let carried = variable_value(state, witness, variables[memory_len as int]);
    lemma_variables_hold_state(accesses, memory_len, state, j, n, memory_len as int);
    assert(carried == if j == 0 {
        state.last()
    } else {
        commit(memory)
    });
    assert(commit(memory) * 1 == commit(memory)) by (nonlinear_arith);
    let commitment_valid = ops[4]->Enforce_0;
    assert(constraint_holds(state, witness, commitment_valid) <==> commit(memory) == carried);

    let cell = variable_value(state, witness, target(variables, memory_len, access.address));
    if access.address < memory_len {
        lemma_variables_hold_state(accesses, memory_len, state, j, n, access.address as int);
        assert(state_after(accesses, state, j)[access.address as int] == memory[access.address as int]);
    }
    assert(cell == selected(memory, access.address));
    assert(cell < modulus());
    let read_consistency = ops[5]->Enforce_0;
    assert(constraint_holds(state, witness, read_consistency) <==> mul_mod(
        sub_mod(access.instruction, 1),
        sub_mod(cell, access.value),
    ) == 0);
    let instruction_boolean = ops[6]->Enforce_0;
    assert(constraint_holds(state, witness, instruction_boolean) <==> mul_mod(
        access.instruction,
        sub_mod(access.instruction, 1),
    ) == 0);
    lemma_boolean_constraint(access.instruction);
    if access.instruction == 0 || access.instruction == 1 {
        lemma_read_constraint(access.instruction, cell, access.value);
    }
    assert(ops[0] is Allocate && ops[1] is Allocate && ops[2] is Allocate && ops[3] is Allocate
        && ops[7] is Allocate);
    if (j == 0 ==> state.last() == commit(state.drop_last())) && access_consistent(memory, access) {
        assert forall|i: int| 0 <= i < ops.len() implies operation_holds(
            state,
            witness,
            #[trigger] ops[i],
        ) by {
            if i == 4 {
            } else if i == 5 {
            } else if i == 6 {
            }
        }
    } else {
        assert(!operation_holds(state, witness, ops[4]) || !operation_holds(state, witness, ops[5])
            || !operation_holds(state, witness, ops[6]));
    }
}

/// The values that the circuit assigns satisfy the constraints of the first
/// `k` accesses exactly where these are valid on the state.
pub proof fn lemma_prefix_satisfied(
    accesses: Seq<Access>,
    memory_len: nat,
    state: Seq<nat>,
    k: nat,
)
    requires
        k <= accesses.len(),
        memory_len >= 1,
        state.len() == memory_len + 1,
        below_modulus(state),
        accesses_in_range(accesses),
        memory_len < usize::MAX,
        witness_base(accesses.len()) <= usize::MAX,
    ensures
        first_violation(
            circuit_operations(accesses, memory_len, k),
            state,
            circuit_witness(accesses, state, accesses.len()),
        ) is None <==> consistent_upto(accesses, state, k),
    decreases k,
{
    let witness = circuit_witness(accesses, state, accesses.len());
    if k == 0 {
        lemma_no_violation_iff_all_hold(circuit_operations(accesses, memory_len, 0), state, witness);
    } else {
        let j = (k - 1) as nat;
        lemma_prefix_satisfied(accesses, memory_len, state, j);
        lemma_step_satisfied(accesses, memory_len, state, j);
        lemma_violation_of_concat(
            circuit_operations(accesses, memory_len, j),
            step_operations(
                j,
                variables_after(accesses, memory_len, j),
                memory_len,
                accesses[j as int],
            ),
            state,
            witness,
        );
        if consistent_upto(accesses, state, k) {
            assert(access_consistent(
                memory_after(accesses, state.drop_last(), j as nat),
                accesses[j as int],
            ));
        }
    }
}

/// The values that the circuit assigns satisfy all its constraints exactly
/// where the accesses are valid on the state that came in: the last element
/// of the state is the commitment to the memory, every instruction is 0 or 1,
/// and every access with instruction 0 finds its value in the cell.
pub proof fn lemma_satisfied_iff_consistent(
    accesses: Seq<Access>,
    memory_len: nat,
    state: Seq<nat>,
)
    requires
        memory_len >= 1,
        state.len() == memory_len + 1,
        below_modulus(state),
        accesses_in_range(accesses),
        memory_len < usize::MAX,
        witness_base(accesses.len()) <= usize::MAX,
    ensures
        first_violation(
            circuit_operations(accesses, memory_len, accesses.len()),
            state,
            circuit_witness(accesses, state, accesses.len()),
        ) is None <==> consistent(accesses, state),
{
    lemma_prefix_satisfied(accesses, memory_len, state, accesses.len());
}

/// An instruction that is neither 0 nor 1 leaves a constraint unsatisfied.
pub proof fn lemma_invalid_instruction_is_violation(
    accesses: Seq<Access>,
    memory_len: nat,
    state: Seq<nat>,
    j: int,
)
    requires
        memory_len >= 1,
        state.len() == memory_len + 1,
        below_modulus(state),
        accesses_in_range(accesses),
        memory_len < usize::MAX,
        witness_base(accesses.len()) <= usize::MAX,
        0 <= j < accesses.len(),
        accesses[j].instruction != 0,
        accesses[j].instruction != 1,
    ensures
        first_violation(
            circuit_operations(accesses, memory_len, accesses.len()),
            state,
            circuit_witness(accesses, state, accesses.len()),
        ) is Some,
{
    lemma_satisfied_iff_consistent(accesses, memory_len, state);
    if consistent(accesses, state) {
        assert(access_consistent(
            memory_after(accesses, state.drop_last(), j as nat),
            accesses[j],
        ));
    }
}

/// An access that checks a cell against a value that the cell does not hold
/// leaves a constraint unsatisfied.
pub proof fn lemma_wrong_read_is_violation(
    accesses: Seq<Access>,
    memory_len: nat,
    state: Seq<nat>,
    j: int,
)
    requires
        memory_len >= 1,
        state.len() == memory_len + 1,
        below_modulus(state),
        accesses_in_range(accesses),
        memory_len < usize::MAX,
        witness_base(accesses.len()) <= usize::MAX,
        0 <= j < accesses.len(),
        accesses[j].instruction == 0,
        selected(memory_after(accesses, state.drop_last(), j as nat), accesses[j].address)
            != accesses[j].value,
    ensures
        first_violation(
            circuit_operations(accesses, memory_len, accesses.len()),
            state,
            circuit_witness(accesses, state, accesses.len()),
        ) is Some,
{
    lemma_satisfied_iff_consistent(accesses, memory_len, state);
    if consistent(accesses, state) {
        assert(access_consistent(
            memory_after(accesses, state.drop_last(), j as nat),
            accesses[j],
        ));
    }
}

/// Accesses that are valid and all check a cell (instruction 0) leave the
/// memory as it was.
pub proof fn lemma_checked_reads_keep_memory(accesses: Seq<Access>, state: Seq<nat>, k: nat)
    requires
        k <= accesses.len(),
        consistent(accesses, state),
        forall|j: int| 0 <= j < k ==> (#[trigger] accesses[j]).instruction == 0,
    ensures
        memory_after(accesses, state.drop_last(), k) == state.drop_last(),
    decreases k,
{
    if k > 0 {
        let j = (k - 1) as nat;
        lemma_checked_reads_keep_memory(accesses, state, j);
        let memory = memory_after(accesses, state.drop_last(), j);
        assert(access_consistent(memory, accesses[j as int]));
        assert(accesses[j as int].instruction == 0);
        assert(apply(memory, accesses[j as int]) =~= memory);
    }
}

} // verus!
