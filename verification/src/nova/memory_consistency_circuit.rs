//! The step circuit that checks a batch of memory accesses against a
//! committed memory state and yields the state that follows.

use crate::nova::commitment::{all_wf, below_modulus, commit, commit_cells, values};
use crate::nova::r1cs::{
    difference, find_violation, first_violation, single, Constraint, ConstraintKind,
    LinearCombination, Operation, Variable, Violation, WitnessKind,
};
use crate::nova::soundness::lemma_satisfied_iff_consistent;
use crate::scalar::{sub_mod, Scalar};
use vstd::prelude::*;

verus! {

/// One access of the trace: the cell, the instruction (0 checks the cell
/// against the value, 1 does not) and the value that the cell holds after it.
#[derive(Clone, Copy, Debug)]
pub struct TraceRecord {
    address: Scalar,
    instruction: Scalar,
    value: Scalar,
}

/// What a trace record stands for.
pub struct Access {
    pub address: nat,
    pub instruction: nat,
    pub value: nat,
}

impl View for TraceRecord {
    type V = Access;

    closed spec fn view(&self) -> Access {
        Access { address: self.address@, instruction: self.instruction@, value: self.value@ }
    }
}

impl TraceRecord {
    /// The three fields are in canonical form and stand for 64-bit integers.
    pub closed spec fn wf(&self) -> bool {
        &&& self.address.wf()
        &&& self.instruction.wf()
        &&& self.value.wf()
        &&& self.address@ <= u64::MAX
        &&& self.instruction@ <= u64::MAX
        &&& self.value@ <= u64::MAX
    }
}

/// An element of the state as the circuit holds it: the variable of the
/// constraint system and the value assigned to it.
#[derive(Clone, Copy, Debug, PartialEq, Eq)]
pub struct Num {
    pub variable: Variable,
    pub value: Scalar,
}

/// What synthesis yields: the operations on the constraint system, in order;
/// the values of the allocated variables, in the order of their allocation;
/// the state after the step; and the first constraint that these values do
/// not satisfy, if there is one.
pub struct Synthesis {
    pub operations: Vec<Operation>,
    pub witness: Vec<Scalar>,
    pub z_out: Vec<Num>,
    pub violation: Option<Violation>,
}

/// What the memory holds at an address; 0 where the address is outside it.
pub open spec fn selected(memory: Seq<nat>, address: nat) -> nat {
    if address < memory.len() {
        memory[address as int]
    } else {
        0
    }
}

/// The memory after an access: the cell at the address holds the value, and
/// no other cell changes.
pub open spec fn apply(memory: Seq<nat>, access: Access) -> Seq<nat> {
    if access.address < memory.len() {
        memory.update(access.address as int, access.value)
    } else {
        memory
    }
}

/// The memory after the first `k` accesses.
pub open spec fn memory_after(accesses: Seq<Access>, memory: Seq<nat>, k: nat) -> Seq<nat>
    decreases k,
{
    if k == 0 {
        memory
    } else {
        apply(memory_after(accesses, memory, (k - 1) as nat), accesses[k - 1])
    }
}

/// The state after the first `k` accesses: the memory, then its commitment.
/// Before the first access it is the state that came in, whatever its last
/// element is.
pub open spec fn state_after(accesses: Seq<Access>, state: Seq<nat>, k: nat) -> Seq<nat> {
    if k == 0 {
        state
    } else {
        let memory = memory_after(accesses, state.drop_last(), k);
        memory.push(commit(memory))
    }
}

/// The place, among the allocated variables, of the first that belongs to the
/// access `j`. Two come before all accesses, and each access has five.
pub open spec fn witness_base(j: nat) -> nat {
    2 + 5 * j
}

/// The variables of the state after the first `k` accesses.
pub open spec fn variables_after(accesses: Seq<Access>, memory_len: nat, k: nat) -> Seq<Variable>
    decreases k,
{
    if k == 0 {
        Seq::new(memory_len + 1, |i: int| Variable::State(i as usize))
    } else {
        let before = variables_after(accesses, memory_len, (k - 1) as nat);
        let base = witness_base((k - 1) as nat);
        Seq::new(
            memory_len + 1,
            |i: int|
                if i == memory_len {
                    Variable::Witness((base + 4) as usize)
                } else if i == accesses[k - 1].address {
                    Variable::Witness(base as usize)
                } else {
                    before[i]
                },
        )
    }
}

/// The variable of the cell that an access is checked against: that of the
/// cell at the address, or the one that holds 0 where the address is outside
/// the memory.
pub open spec fn target(variables: Seq<Variable>, memory_len: nat, address: nat) -> Variable {
    if address < memory_len {
        variables[address as int]
    } else {
        Variable::Witness(0)
    }
}

/// What the circuit does for the access `j`, where `variables` are those of
/// the state before it.
pub open spec fn step_operations(
    j: nat,
    variables: Seq<Variable>,
    memory_len: nat,
    access: Access,
) -> Seq<Operation> {
    let base = witness_base(j);
    let step = j as usize;
    let value = Variable::Witness(base as usize);
    let instruction = Variable::Witness((base + 1) as usize);
    let instruction_minus_one = Variable::Witness((base + 2) as usize);
    let commitment = Variable::Witness((base + 3) as usize);
    seq![
        Operation::Allocate { kind: WitnessKind::Value, step },
        Operation::Allocate { kind: WitnessKind::Instruction, step },
        Operation::Allocate { kind: WitnessKind::InstructionMinusOne, step },
        Operation::Allocate { kind: WitnessKind::Commitment, step },
        Operation::Enforce(
            Constraint {
                kind: ConstraintKind::CommitmentValid,
                step,
                a: single(commitment),
                b: single(Variable::Witness(1)),
                c: single(variables[memory_len as int]),
            },
        ),
        Operation::Enforce(
            Constraint {
                kind: ConstraintKind::ReadConsistency,
                step,
                a: single(instruction_minus_one),
                b: difference(target(variables, memory_len, access.address), value),
                c: single(Variable::Witness(0)),
            },
        ),
        Operation::Enforce(
            Constraint {
                kind: ConstraintKind::InstructionBoolean,
                step,
                a: single(instruction),
                b: single(instruction_minus_one),
                c: single(Variable::Witness(0)),
            },
        ),
        Operation::Allocate { kind: WitnessKind::NewCommitment, step },
    ]
}

/// What the circuit does for the first `k` accesses: it allocates the
/// variables that hold 0 and 1, then takes the accesses in turn.
pub open spec fn circuit_operations(accesses: Seq<Access>, memory_len: nat, k: nat) -> Seq<
    Operation,
>
    decreases k,
{
    if k == 0 {
        seq![
            Operation::Allocate { kind: WitnessKind::Zero, step: 0 },
            Operation::Allocate { kind: WitnessKind::One, step: 0 },
        ]
    } else {
        circuit_operations(accesses, memory_len, (k - 1) as nat) + step_operations(
            (k - 1) as nat,
            variables_after(accesses, memory_len, (k - 1) as nat),
            memory_len,
            accesses[k - 1],
        )
    }
}

/// The values of the variables that the circuit allocates for the first `k`
/// accesses, where `state` came in.
pub open spec fn circuit_witness(accesses: Seq<Access>, state: Seq<nat>, k: nat) -> Seq<nat>
    decreases k,
{
    if k == 0 {
        seq![0nat, 1nat]
    } else {
        let access = accesses[k - 1];
        circuit_witness(accesses, state, (k - 1) as nat) + seq![
            access.value,
            access.instruction,
            sub_mod(access.instruction, 1),
            commit(memory_after(accesses, state.drop_last(), (k - 1) as nat)),
            commit(memory_after(accesses, state.drop_last(), k)),
        ]
    }
}

/// The three fields of the access are 64-bit integers.
pub open spec fn access_in_range(access: Access) -> bool {
    &&& access.address <= u64::MAX
    &&& access.instruction <= u64::MAX
    &&& access.value <= u64::MAX
}

/// The fields of every access are 64-bit integers.
pub open spec fn accesses_in_range(accesses: Seq<Access>) -> bool {
    forall|j: int| 0 <= j < accesses.len() ==> access_in_range(#[trigger] accesses[j])
}

/// The access is valid on the memory: its instruction is 0 or 1, and where
/// it is 0 the cell at the address holds the value.
pub open spec fn access_consistent(memory: Seq<nat>, access: Access) -> bool {
    &&& access.instruction == 0 || access.instruction == 1
    &&& access.instruction == 0 ==> selected(memory, access.address) == access.value
}

/// The first `k` accesses are valid on the state: where there is one, the
/// last element of the state is the commitment to the memory before it; and
/// each access is valid on the memory that the accesses before it leave.
pub open spec fn consistent_upto(accesses: Seq<Access>, state: Seq<nat>, k: nat) -> bool {
    &&& k > 0 ==> state.last() == commit(state.drop_last())
    &&& forall|j: int|
        0 <= j < k ==> access_consistent(
            #[trigger] memory_after(accesses, state.drop_last(), j as nat),
            accesses[j],
        )
}

/// The accesses are valid on the state.
pub open spec fn consistent(accesses: Seq<Access>, state: Seq<nat>) -> bool {
    consistent_upto(accesses, state, accesses.len())
}

/// The elements hold the given variables and stand for the given values.
pub open spec fn nums_match(z: Seq<Num>, variables: Seq<Variable>, state: Seq<nat>) -> bool {
    &&& z.len() == variables.len()
    &&& z.len() == state.len()
    &&& forall|i: int|
        0 <= i < z.len() ==> {
            &&& (#[trigger] z[i]).variable == variables[i]
            &&& z[i].value.wf()
            &&& z[i].value@ == state[i]
        }
}

/// The memory keeps its length under the accesses.
pub proof fn lemma_memory_len(accesses: Seq<Access>, memory: Seq<nat>, k: nat)
    ensures
        memory_after(accesses, memory, k).len() == memory.len(),
    decreases k,
{
    if k > 0 {
        lemma_memory_len(accesses, memory, (k - 1) as nat);
    }
}

/// The circuit allocates two variables and five for each access.
pub proof fn lemma_witness_len(accesses: Seq<Access>, state: Seq<nat>, k: nat)
    ensures
        circuit_witness(accesses, state, k).len() == witness_base(k),
    decreases k,
{
    if k > 0 {
        lemma_witness_len(accesses, state, (k - 1) as nat);
    }
}

/// The memory consistency circuit of one step.
pub struct NovaMemoryConsistencyCircuit {
    memory_len: usize,
    num_iters_per_step: usize,
    trace_record: Vec<TraceRecord>,
}

impl Clone for NovaMemoryConsistencyCircuit {
    fn clone(&self) -> (copy: Self)
        ensures
            copy.spec_memory_len() == self.spec_memory_len(),
            copy.accesses() == self.accesses(),
            copy.wf() == self.wf(),
    {
        let mut trace_record: Vec<TraceRecord> = Vec::new();
        let mut i: usize = 0;
        while i < self.trace_record.len()
            invariant
                i <= self.trace_record.len(),
                trace_record@ == self.trace_record@.subrange(0, i as int),
            decreases self.trace_record.len() - i,
        {
            trace_record.push(self.trace_record[i]);
            i = i + 1;
        }
        assert(trace_record@ == self.trace_record@);
        Self {
            memory_len: self.memory_len,
            num_iters_per_step: self.num_iters_per_step,
            trace_record,
        }
    }
}

impl NovaMemoryConsistencyCircuit {
    /// The number of memory cells.
    pub closed spec fn spec_memory_len(&self) -> nat {
        self.memory_len as nat
    }

    /// The accesses of the step, in the order in which they are applied.
    pub closed spec fn accesses(&self) -> Seq<Access> {
        self.trace_record@.map_values(|r: TraceRecord| r@)
    }

    /// The circuit holds one well-formed record for each iteration, and its
    /// arity fits a `usize`.
    pub closed spec fn wf(&self) -> bool {
        &&& self.memory_len < usize::MAX
        &&& self.trace_record.len() == self.num_iters_per_step
        &&& forall|j: int| 0 <= j < self.trace_record.len() ==> (#[trigger] self.trace_record[j]).wf()
    }

    /// The accesses of a well-formed circuit hold 64-bit integers.
    pub proof fn lemma_accesses_in_range(&self)
        requires
            self.wf(),
        ensures
            accesses_in_range(self.accesses()),
    {
        assert forall|j: int| 0 <= j < self.accesses().len() implies access_in_range(
            #[trigger] self.accesses()[j],
        ) by {
            assert(self.trace_record[j].wf());
        }
    }

    /// A circuit over `memory_len` cells that applies the first
    /// `num_iters_per_step` accesses given by the three vectors.
    pub fn new(
        memory_len: usize,
        num_iters_per_step: usize,
        address: Vec<u64>,
        instruction: Vec<u64>,
        value: Vec<u64>,
    ) -> (circuit: Self)
        requires
            memory_len < usize::MAX,
            num_iters_per_step <= address.len(),
            num_iters_per_step <= instruction.len(),
            num_iters_per_step <= value.len(),
        ensures
            circuit.wf(),
            circuit.spec_memory_len() == memory_len,
            circuit.accesses().len() == num_iters_per_step,
            forall|j: int|
                0 <= j < num_iters_per_step ==> #[trigger] circuit.accesses()[j] == (Access {
                    address: address[j] as nat,
                    instruction: instruction[j] as nat,
                    value: value[j] as nat,
                }),
    {
        let mut trace_record: Vec<TraceRecord> = Vec::new();
        let mut i: usize = 0;
        while i < num_iters_per_step
            invariant
                i <= num_iters_per_step,
                num_iters_per_step <= address.len(),
                num_iters_per_step <= instruction.len(),
                num_iters_per_step <= value.len(),
                trace_record.len() == i,
                forall|j: int| 0 <= j < i ==> (#[trigger] trace_record[j]).wf(),
                forall|j: int|
                    0 <= j < i ==> (#[trigger] trace_record[j])@ == (Access {
                        address: address[j] as nat,
                        instruction: instruction[j] as nat,
                        value: value[j] as nat,
                    }),
            decreases num_iters_per_step - i,
        {
            trace_record.push(
                TraceRecord {
                    address: Scalar::from_u64(address[i]),
                    instruction: Scalar::from_u64(instruction[i]),
                    value: Scalar::from_u64(value[i]),
                },
            );
            i = i + 1;
        }
        Self { memory_len, num_iters_per_step, trace_record }
    }

    /// The number of elements of the state that a step takes and yields: the
    /// memory cells and their commitment.
    pub fn arity(&self) -> (n: usize)
        requires
            self.wf(),
        ensures
            n == self.spec_memory_len() + 1,
    {
        self.memory_len + 1
    }

    /// The commitment to the memory cells.
    pub fn merkle_tree_commit(self, memory: Vec<Scalar>) -> (root: Scalar)
        requires
            memory.len() > 0,
            all_wf(memory@),
        ensures
            root.wf(),
            root@ == commit(values(memory@)),
    {
        commit_cells(&memory)
    }

    /// The values of the first `count` elements.
    fn cells_of(z: &Vec<Num>, count: usize) -> (cells: Vec<Scalar>)
        requires
            count <= z.len(),
            forall|i: int| 0 <= i < z.len() ==> (#[trigger] z[i]).value.wf(),
        ensures
            cells.len() == count,
            all_wf(cells@),
            forall|i: int| 0 <= i < count ==> (#[trigger] cells[i]) == z[i].value,
    {
        let mut cells: Vec<Scalar> = Vec::new();
        let mut i: usize = 0;
        while i < count
            invariant
                i <= count,
                count <= z.len(),
                cells.len() == i,
                forall|k: int| 0 <= k < z.len() ==> (#[trigger] z[k]).value.wf(),
                forall|k: int| 0 <= k < i ==> (#[trigger] cells[k]) == z[k].value,
            decreases count - i,
        {
            cells.push(z[i].value);
            i = i + 1;
        }
        cells
    }

    /// Takes the access `j`: allocates its variables, enforces its three
    /// constraints and yields the state after it.
    fn synthesize_step(
        &self,
        j: usize,
        z: &Vec<Num>,
        operations: &mut Vec<Operation>,
        witness: &mut Vec<Scalar>,
        Ghost(state): Ghost<Seq<nat>>,
    ) -> (next: Vec<Num>)
        requires
            self.wf(),
            self.memory_len >= 1,
            j < self.trace_record.len(),
            state.len() == self.memory_len + 1,
            nums_match(
                z@,
                variables_after(self.accesses(), self.memory_len as nat, j as nat),
                state_after(self.accesses(), state, j as nat),
            ),
            old(operations)@ == circuit_operations(self.accesses(), self.memory_len as nat, j as nat),
            all_wf(old(witness)@),
            values(old(witness)@) == circuit_witness(self.accesses(), state, j as nat),
        ensures
            nums_match(
                next@,
                variables_after(self.accesses(), self.memory_len as nat, (j + 1) as nat),
                state_after(self.accesses(), state, (j + 1) as nat),
            ),
            final(operations)@ == circuit_operations(
                self.accesses(),
                self.memory_len as nat,
                (j + 1) as nat,
            ),
            all_wf(final(witness)@),
            values(final(witness)@) == circuit_witness(self.accesses(), state, (j + 1) as nat),
    {
        let memory_len = self.memory_len;
        let record = self.trace_record[j];
        let ghost accesses = self.accesses();
        let ghost access = accesses[j as int];
        let ghost variables = variables_after(accesses, memory_len as nat, j as nat);
        let ghost memory_before = memory_after(accesses, state.drop_last(), j as nat);
        let ghost witness_before = old(witness)@;
        let ghost operations_before = old(operations)@;
        proof {
            assert(access == record@);
            assert(record.wf());
            lemma_witness_len(accesses, state, j as nat);
            lemma_memory_len(accesses, state.drop_last(), j as nat);
            assert(values(witness@).len() == witness@.len());
        }
        let base = witness.len();
        assert(base == witness_base(j as nat));

        let memory = Self::cells_of(z, memory_len);
        assert(values(memory@) =~= memory_before);

        let value = Variable::Witness(witness.len());
        witness.push(record.value);
        operations.push(Operation::Allocate { kind: WitnessKind::Value, step: j });
        let instruction = Variable::Witness(witness.len());
        witness.push(record.instruction);
        operations.push(Operation::Allocate { kind: WitnessKind::Instruction, step: j });
        let instruction_minus_one = Variable::Witness(witness.len());
        witness.push(record.instruction.sub(Scalar::one()));
        operations.push(Operation::Allocate { kind: WitnessKind::InstructionMinusOne, step: j });
        let commitment = Variable::Witness(witness.len());
        witness.push(commit_cells(&memory));
        operations.push(Operation::Allocate { kind: WitnessKind::Commitment, step: j });

        let mut cell = Variable::Witness(0);
        let mut i: usize = 0;
        while i < memory_len
            invariant
                i <= memory_len,
                memory_len < z.len(),
                record.wf(),
                forall|k: int| 0 <= k < z.len() ==> (#[trigger] z[k]).variable == variables[k],
                cell == if record.address@ < i {
                    variables[record.address@ as int]
                } else {
                    Variable::Witness(0)
                },
            decreases memory_len - i,
        {
            let index = Scalar::from_u64(i as u64);
            proof {
                Scalar::lemma_view_injective(index, record.address);
            }
            if index == record.address {
                cell = z[i].variable;
            }
            i = i + 1;
        }
        assert(cell == target(variables, memory_len as nat, access.address));

        operations.push(
            Operation::Enforce(
                Constraint {
                    kind: ConstraintKind::CommitmentValid,
                    step: j,
                    a: LinearCombination { plus: commitment, minus: None },
                    b: LinearCombination { plus: Variable::Witness(1), minus: None },
                    c: LinearCombination { plus: z[memory_len].variable, minus: None },
                },
            ),
        );
        operations.push(
            Operation::Enforce(
                Constraint {
                    kind: ConstraintKind::ReadConsistency,
                    step: j,
                    a: LinearCombination { plus: instruction_minus_one, minus: None },
                    b: LinearCombination { plus: cell, minus: Some(value) },
                    c: LinearCombination { plus: Variable::Witness(0), minus: None },
                },
            ),
        );
        operations.push(
            Operation::Enforce(
                Constraint {
                    kind: ConstraintKind::InstructionBoolean,
                    step: j,
                    a: LinearCombination { plus: instruction, minus: None },
                    b: LinearCombination { plus: instruction_minus_one, minus: None },
                    c: LinearCombination { plus: Variable::Witness(0), minus: None },
                },
            ),
        );

        let ghost memory_next = apply(memory_before, access);
        let ghost variables_next = variables_after(accesses, memory_len as nat, (j + 1) as nat);
        let mut next: Vec<Num> = Vec::new();
        let mut i: usize = 0;
        while i < memory_len
            invariant
                i <= memory_len,
                memory_len < z.len(),
                memory_len == memory_before.len(),
                record.wf(),
                access == record@,
                value == Variable::Witness(base),
                base == witness_base(j as nat),
                access == accesses[j as int],
                variables == variables_after(accesses, memory_len as nat, j as nat),
                variables_next == variables_after(accesses, memory_len as nat, (j + 1) as nat),
                memory_next == apply(memory_before, access),
                forall|k: int|
                    0 <= k < memory_len ==> {
                        &&& (#[trigger] z[k]).variable == variables[k]
                        &&& z[k].value.wf()
                        &&& z[k].value@ == memory_before[k]
                    },
                next.len() == i,
                forall|k: int|
                    0 <= k < i ==> {
                        &&& (#[trigger] next[k]).variable == variables_next[k]
                        &&& next[k].value.wf()
                        &&& next[k].value@ == memory_next[k]
                    },
            decreases memory_len - i,
        {
            let index = Scalar::from_u64(i as u64);
            proof {
                Scalar::lemma_view_injective(index, record.address);
            }
            if index != record.address {
                next.push(z[i]);
            } else {
                next.push(Num { variable: value, value: record.value });
            }
            i = i + 1;
        }
        let new_memory = Self::cells_of(&next, memory_len);
        assert(values(new_memory@) =~= memory_next);
        let new_commitment = commit_cells(&new_memory);
        next.push(Num { variable: Variable::Witness(witness.len()), value: new_commitment });
        witness.push(new_commitment);
        operations.push(Operation::Allocate { kind: WitnessKind::NewCommitment, step: j });
        proof {
            assert(memory_next == memory_after(accesses, state.drop_last(), (j + 1) as nat));
            assert(values(witness@) =~= values(witness_before) + seq![
                access.value,
                access.instruction,
                sub_mod(access.instruction, 1),
                commit(memory_before),
                commit(memory_next),
            ]);
            assert(operations@ =~= operations_before + step_operations(
                j as nat,
                variables,
                memory_len as nat,
                access,
            ));
        }
        next
    }

    /// Synthesizes the step on the state `z_in`, the memory cells followed by
    /// their commitment: takes the accesses in turn, and for each allocates
    /// its variables, enforces that the commitment carried in is that of the
    /// memory, that a cell read holds the value and that the instruction is 0
    /// or 1, and replaces the cell at the address by the value.
    pub fn synthesize(&self, z_in: &Vec<Scalar>) -> (s: Synthesis)
        requires
            self.wf(),
            self.spec_memory_len() >= 1,
            z_in.len() == self.spec_memory_len() + 1,
            all_wf(z_in@),
        ensures
            s.operations@ == circuit_operations(
                self.accesses(),
                self.spec_memory_len(),
                self.accesses().len(),
            ),
            all_wf(s.witness@),
            values(s.witness@) == circuit_witness(
                self.accesses(),
                values(z_in@),
                self.accesses().len(),
            ),
            nums_match(
                s.z_out@,
                variables_after(self.accesses(), self.spec_memory_len(), self.accesses().len()),
                state_after(self.accesses(), values(z_in@), self.accesses().len()),
            ),
            s.violation == first_violation(s.operations@, values(z_in@), values(s.witness@)),
            s.violation is None <==> consistent(self.accesses(), values(z_in@)),
    {
        let ghost state = values(z_in@);
        let mut operations: Vec<Operation> = Vec::new();
        let mut witness: Vec<Scalar> = Vec::new();
        witness.push(Scalar::zero());
        operations.push(Operation::Allocate { kind: WitnessKind::Zero, step: 0 });
        witness.push(Scalar::one());
        operations.push(Operation::Allocate { kind: WitnessKind::One, step: 0 });
        assert(values(witness@) =~= seq![0nat, 1nat]);
        assert(operations@ =~= circuit_operations(self.accesses(), self.memory_len as nat, 0));

        let mut z_out: Vec<Num> = Vec::new();
        let mut i: usize = 0;
        while i < z_in.len()
            invariant
                i <= z_in.len(),
                all_wf(z_in@),
                z_out.len() == i,
                forall|k: int|
                    0 <= k < i ==> {
                        &&& (#[trigger] z_out[k]).variable == Variable::State(k as usize)
                        &&& z_out[k].value == z_in[k]
                    },
            decreases z_in.len() - i,
        {
            z_out.push(Num { variable: Variable::State(i), value: z_in[i] });
            i = i + 1;
        }

        let mut j: usize = 0;
        while j < self.num_iters_per_step
            invariant
                self.wf(),
                self.memory_len >= 1,
                j <= self.num_iters_per_step,
                state == values(z_in@),
                state.len() == self.memory_len + 1,
                nums_match(
                    z_out@,
                    variables_after(self.accesses(), self.memory_len as nat, j as nat),
                    state_after(self.accesses(), state, j as nat),
                ),
                operations@ == circuit_operations(self.accesses(), self.memory_len as nat, j as nat),
                all_wf(witness@),
                values(witness@) == circuit_witness(self.accesses(), state, j as nat),
            decreases self.num_iters_per_step - j,
        {
            z_out = self.synthesize_step(j, &z_out, &mut operations, &mut witness, Ghost(state));
            j = j + 1;
        }
        let violation = find_violation(&operations, z_in, &witness);
        let allocated = witness.len();
        proof {
            self.lemma_accesses_in_range();
            lemma_witness_len(self.accesses(), state, j as nat);
            assert(values(witness@).len() == allocated);
            assert(self.accesses().len() == j);
            assert(below_modulus(state)) by {
                assert forall|i: int| 0 <= i < state.len() implies #[trigger] state[i]
                    < crate::scalar::modulus() by {
                    assert(z_in@[i].wf());
                }
            }
            lemma_satisfied_iff_consistent(self.accesses(), self.memory_len as nat, state);
        }
        Synthesis { operations, witness, z_out, violation }
    }
}

} // verus!
