//! The machine: a memory of cells, the reads and writes on it, the trace of
//! every access, and the dispatch of instructions.

use crate::access::{
    cell, footprint, lemma_cells_of_access, lemma_read_of_unwritten, lemma_write_elsewhere,
    lemma_write_well_formed, read_bytes, well_formed, write_bytes, written_high, written_low,
};
use crate::memory::MemoryStore;
use crate::word::{zeros, Word};
use vstd::prelude::*;

verus! {

/// What an access does to the memory.
#[derive(Clone, Copy, Debug, PartialEq, Eq)]
pub enum MemoryInstruction {
    /// The access reads.
    Read,
    /// The access writes.
    Write,
}

/// One access of the trace: when it happened, where, what it did, and the
/// value read or written.
#[derive(Debug, PartialEq, Eq)]
pub struct TraceRecord {
    pub time_log: usize,
    pub address: u64,
    pub instruction: MemoryInstruction,
    pub value: Word,
}

/// What a trace record stands for.
pub struct Event {
    pub time_log: nat,
    pub address: u64,
    pub instruction: MemoryInstruction,
    pub value: Seq<u8>,
}

impl View for TraceRecord {
    type V = Event;

    open spec fn view(&self) -> Event {
        Event {
            time_log: self.time_log as nat,
            address: self.address,
            instruction: self.instruction,
            value: self.value@,
        }
    }
}

impl Clone for TraceRecord {
    fn clone(&self) -> (copy: Self)
        ensures
            copy@ == self@,
    {
        TraceRecord {
            time_log: self.time_log,
            address: self.address,
            instruction: self.instruction,
            value: self.value.clone(),
        }
    }
}

/// The state of the machine beside its memory: the time of the next access,
/// and the stack that machines built on this one keep.
#[derive(Clone, Copy, Debug, PartialEq, Eq)]
pub struct MachineContext {
    pub time_log: usize,
    pub stack_base: u64,
    pub stack_depth: u64,
    pub stack_ptr: u64,
}

impl MachineContext {
    /// The context after one more access: the time has moved on by one.
    pub open spec fn after_access(self) -> MachineContext {
        MachineContext { time_log: (self.time_log + 1) as usize, ..self }
    }
}

/// An instruction for the machine.
#[derive(Debug, PartialEq, Eq)]
pub enum Instruction {
    /// Read at the address, and expect the value.
    Read(u64, Word),
    /// Write the value at the address.
    Write(u64, Word),
    /// No instruction: what a malformed one decodes to.
    Invalid,
}

/// Why the machine refused.
#[derive(Clone, Copy, Debug, PartialEq, Eq)]
pub enum Error {
    /// The cell size is 0 or does not divide the width of the values, or the
    /// width is 0.
    InvalidCellSize,
    /// The value has another width than the values of the machine.
    ValueWidthMismatch,
    /// A read did not yield the value expected.
    UnexpectedValue,
    /// The instruction is `Invalid`.
    InvalidInstruction,
}

/// The memory that the writes among the events build, in their order, from a
/// memory that holds nothing.
pub open spec fn replay(events: Seq<Event>, cell_size: u64, width: nat) -> Map<u64, Seq<u8>>
    decreases events.len(),
{
    if events.len() == 0 {
        Map::empty()
    } else {
        let before = replay(events.drop_last(), cell_size, width);
        let event = events.last();
        match event.instruction {
            MemoryInstruction::Write => write_bytes(
                before,
                cell_size,
                width,
                event.address,
                event.value,
            ),
            MemoryInstruction::Read => before,
        }
    }
}

/// The views of the records.
pub open spec fn events_of(trace: Seq<TraceRecord>) -> Seq<Event> {
    trace.map_values(|r: TraceRecord| r@)
}

/// A read yields zeros at an address that no write of the trace has touched:
/// no write shares a cell with the read.
pub proof fn lemma_unwritten_reads_zero(
    events: Seq<Event>,
    cell_size: u64,
    width: nat,
    address: u64,
)
    requires
        0 < cell_size <= width,
        forall|k: int|
            0 <= k < events.len() && (#[trigger] events[k]).instruction
                == MemoryInstruction::Write ==> footprint(cell_size, events[k].address).disjoint(
                footprint(cell_size, address),
            ),
    ensures
        read_bytes(replay(events, cell_size, width), cell_size, width, address) == zeros(width),
    decreases events.len(),
{
    if events.len() == 0 {
        lemma_read_of_unwritten(Map::empty(), cell_size, width, address);
    } else {
        let front = events.drop_last();
        assert forall|k: int|
            0 <= k < front.len() && (#[trigger] front[k]).instruction
                == MemoryInstruction::Write implies footprint(cell_size, front[k].address).disjoint(
            footprint(cell_size, address),
        ) by {
            assert(front[k] == events[k]);
        }
        lemma_unwritten_reads_zero(front, cell_size, width, address);
        let event = events.last();
        if event.instruction == MemoryInstruction::Write {
            assert(events[events.len() - 1] == event);
            lemma_write_elsewhere(
                replay(front, cell_size, width),
                cell_size,
                width,
                event.address,
                event.value,
                address,
            );
        }
    }
}

/// The events are in the order of their addresses, and those at one address
/// in the order of their times.
pub open spec fn ordered_by_address(events: Seq<Event>) -> bool {
    forall|i: int, j: int|
        0 <= i < j < events.len() ==> {
            ||| (#[trigger] events[i]).address < (#[trigger] events[j]).address
            ||| events[i].address == events[j].address && events[i].time_log < events[j].time_log
        }
}

/// An event put into a sequence is one more event of it, wherever it goes.
pub proof fn lemma_insert_to_multiset(events: Seq<Event>, at: int, event: Event)
    requires
        0 <= at <= events.len(),
    ensures
        events.insert(at, event).to_multiset() == events.to_multiset().insert(event),
{
    let longer = events.insert(at, event);
    broadcast use vstd::seq_lib::group_to_multiset_ensures;

    assert(longer.remove(at) == events);
    assert(longer[at] == event);
    assert(longer.remove(at).to_multiset() =~= longer.to_multiset().remove(event));
    assert(longer.contains(event));
    assert(longer.to_multiset() =~= events.to_multiset().insert(event));
}

/// A machine with a memory of cells.
pub struct MemoryMachine {
    store: MemoryStore,
    cell_size: u64,
    value_width: usize,
    context: MachineContext,
    trace: Vec<TraceRecord>,
}

impl MemoryMachine {
    /// The size of a cell: the addresses of the cells are its multiples.
    pub closed spec fn spec_cell_size(&self) -> u64 {
        self.cell_size
    }

    /// The number of bytes of a value.
    pub closed spec fn spec_value_width(&self) -> nat {
        self.value_width as nat
    }

    /// What the memory holds: the bytes at each address of a cell that was
    /// written.
    pub closed spec fn memory(&self) -> Map<u64, Seq<u8>> {
        self.store@
    }

    /// The accesses so far, in their order.
    pub closed spec fn events(&self) -> Seq<Event> {
        events_of(self.trace@)
    }

    /// The state of the machine beside its memory.
    pub closed spec fn spec_context(&self) -> MachineContext {
        self.context
    }

    /// The cell size divides the width of the values; the memory is what the
    /// writes of the trace build; and the trace is stamped with the times
    /// 0, 1, 2 and so on, up to the time of the next access.
    pub closed spec fn wf(&self) -> bool {
        &&& 0 < self.cell_size <= self.value_width
        &&& self.value_width as int % self.cell_size as int == 0
        &&& self.store@ == replay(self.events(), self.cell_size, self.value_width as nat)
        &&& well_formed(self.store@, self.cell_size, self.value_width as nat)
        &&& self.context.time_log == self.trace.len()
        &&& forall|i: int| 0 <= i < self.trace.len() ==> (#[trigger] self.trace[i]).time_log == i
    }

    /// What a well-formed machine is made of.
    pub proof fn lemma_wf(&self)
        requires
            self.wf(),
        ensures
            0 < self.spec_cell_size() <= self.spec_value_width(),
            self.spec_value_width() as int % self.spec_cell_size() as int == 0,
            self.memory() == replay(self.events(), self.spec_cell_size(), self.spec_value_width()),
            well_formed(self.memory(), self.spec_cell_size(), self.spec_value_width()),
            self.spec_context().time_log == self.events().len(),
            forall|i: int|
                0 <= i < self.events().len() ==> (#[trigger] self.events()[i]).time_log == i,
    {
        assert forall|i: int| 0 <= i < self.events().len() implies (#[trigger] self.events()[i]).time_log
            == i by {
            assert(self.trace[i].time_log == i);
        }
    }

    /// A machine with an empty memory and an empty trace. The cell size has
    /// to divide the width of the values, and neither may be 0.
    pub fn new(cell_size: u64, value_width: usize) -> (r: Result<MemoryMachine, Error>)
        ensures
            r is Err <==> cell_size == 0 || value_width == 0 || value_width as int
                % cell_size as int != 0,
            r is Err ==> r->Err_0 == Error::InvalidCellSize,
            r is Ok ==> {
                &&& r->Ok_0.wf()
                &&& r->Ok_0.spec_cell_size() == cell_size
                &&& r->Ok_0.spec_value_width() == value_width
                &&& r->Ok_0.memory() == Map::<u64, Seq<u8>>::empty()
                &&& r->Ok_0.events() == Seq::<Event>::empty()
                &&& r->Ok_0.spec_context() == (MachineContext {
                    time_log: 0,
                    stack_base: 0,
                    stack_depth: 0,
                    stack_ptr: 0,
                })
            },
    {
        if cell_size == 0 || value_width == 0 || value_width as u64 % cell_size != 0 {
            return Err(Error::InvalidCellSize);
        }
        let machine = MemoryMachine {
            store: MemoryStore::new(),
            cell_size,
            value_width,
            context: MachineContext { time_log: 0, stack_base: 0, stack_depth: 0, stack_ptr: 0 },
            trace: Vec::new(),
        };
        assert(machine.events() =~= Seq::<Event>::empty());
        assert(value_width >= cell_size) by {
            if (value_width as int) < cell_size as int {
                vstd::arithmetic::div_mod::lemma_small_mod(value_width as nat, cell_size as nat);
            }
        }
        Ok(machine)
    }

    /// The size of a cell.
    pub fn cell_size(&self) -> (r: u64)
        ensures
            r == self.spec_cell_size(),
    {
        self.cell_size
    }

    /// The number of bytes of a value.
    pub fn value_width(&self) -> (r: usize)
        ensures
            r == self.spec_value_width(),
    {
        self.value_width
    }

    /// The state of the machine beside its memory.
    pub fn context(&self) -> (r: MachineContext)
        ensures
            r == self.spec_context(),
    {
        self.context
    }

    /// The trace: every access so far, in the order of their times.
    pub fn trace(&self) -> (r: Vec<TraceRecord>)
        ensures
            events_of(r@) == self.events(),
    {
        let mut copy: Vec<TraceRecord> = Vec::new();
        let mut i: usize = 0;
        while i < self.trace.len()
            invariant
                i <= self.trace.len(),
                copy.len() == i,
                forall|k: int| 0 <= k < i ==> (#[trigger] copy[k])@ == self.trace[k]@,
            decreases self.trace.len() - i,
        {
            copy.push(self.trace[i].clone());
            i = i + 1;
        }
        assert(events_of(copy@) =~= self.events());
        copy
    }

    /// The trace in the order of the addresses, for display: the accesses at
    /// one address stay in the order of their times.
    pub fn trace_by_address(&self) -> (r: Vec<TraceRecord>)
        requires
            self.wf(),
        ensures
            ordered_by_address(events_of(r@)),
            events_of(r@).to_multiset() == self.events().to_multiset(),
    {
        let mut sorted: Vec<TraceRecord> = Vec::new();
        let mut i: usize = 0;
        assert(events_of(self.trace@.subrange(0, 0)) == Seq::<Event>::empty());
        assert(events_of(sorted@) == Seq::<Event>::empty());
        while i < self.trace.len()
            invariant
                i <= self.trace.len(),
                forall|k: int|
                    0 <= k < self.trace.len() ==> (#[trigger] self.trace[k]).time_log == k,
                forall|k: int| 0 <= k < sorted.len() ==> (#[trigger] sorted[k]).time_log < i,
                ordered_by_address(events_of(sorted@)),
                events_of(sorted@).to_multiset() == events_of(
                    self.trace@.subrange(0, i as int),
                ).to_multiset(),
            decreases self.trace.len() - i,
        {
            let record = self.trace[i].clone();
            let mut at: usize = sorted.len();
            while at > 0 && sorted[at - 1].address > record.address
                invariant
                    at <= sorted.len(),
                    forall|k: int|
                        at <= k < sorted.len() ==> (#[trigger] sorted[k]).address > record.address,
                decreases at,
            {
                at = at - 1;
            }
            let ghost before = events_of(sorted@);
            let ghost event = record@;
            sorted.insert(at, record);
            proof {
                let after = events_of(sorted@);
                assert(after =~= before.insert(at as int, event));
                lemma_insert_to_multiset(before, at as int, event);
                let front = events_of(self.trace@.subrange(0, i as int));
                assert(events_of(self.trace@.subrange(0, i + 1)) =~= front.push(event));
                broadcast use vstd::seq_lib::group_to_multiset_ensures;

                assert forall|a: int, b: int| 0 <= a < b < after.len() implies {
                    ||| (#[trigger] after[a]).address < (#[trigger] after[b]).address
                    ||| after[a].address == after[b].address && after[a].time_log
                        < after[b].time_log
                } by {
                    if b == at {
                        assert(before[a] == after[a]);
                        if at > 0 {
                            assert(a <= at - 1);
                            assert(before[at - 1].address <= event.address);
                            if a < at - 1 {
                                assert(before[a].address <= before[at - 1].address);
                            }
                        }
                        assert(sorted[a].time_log < i + 1);
                    } else if a == at {
                        assert(after[b] == before[b - 1]);
                    } else {
                        let a0 = if a < at {
                            a
                        } else {
                            a - 1
                        };
                        let b0 = if b < at {
                            b
                        } else {
                            b - 1
                        };
                        assert(after[a] == before[a0]);
                        assert(after[b] == before[b0]);
                    }
                }
            }
            i = i + 1;
        }
        assert(self.trace@.subrange(0, i as int) == self.trace@);
        sorted
    }

    /// What the memory holds at the address of a cell.
    fn fetch(&self, address: u64) -> (value: Word)
        requires
            self.wf(),
        ensures
            value@ == cell(self.memory(), self.spec_value_width(), address),
            value@.len() == self.spec_value_width(),
    {
        match self.store.get(address) {
            Some(value) => value,
            None => Word::zero(self.value_width),
        }
    }

    /// What a read at the address yields.
    fn load(&self, address: u64) -> (value: Word)
        requires
            self.wf(),
        ensures
            value@ == read_bytes(
                self.memory(),
                self.spec_cell_size(),
                self.spec_value_width(),
                address,
            ),
            value@.len() == self.spec_value_width(),
    {
        let remain = address % self.cell_size;
        if remain == 0 {
            self.fetch(address)
        } else {
            proof {
                lemma_cells_of_access(self.cell_size, address);
            }
            let low_address = address - remain;
            let high_address = low_address.wrapping_add(self.cell_size);
            let low = self.fetch(low_address);
            let high = self.fetch(high_address);
            let size = self.cell_size as usize;
            let part_low = remain as usize;
            let part_high = size - part_low;
            let mut buf: Vec<u8> = Vec::new();
            let mut i: usize = 0;
            while i < self.value_width
                invariant
                    i <= self.value_width,
                    buf.len() == i,
                    0 < part_low < size <= self.value_width,
                    part_high == size - part_low,
                    low@.len() == self.value_width,
                    high@.len() == self.value_width,
                    forall|k: int|
                        0 <= k < i ==> #[trigger] buf[k] == if k < part_high {
                            low@[part_low + k]
                        } else if k < size {
                            high@[k - part_high]
                        } else {
                            0u8
                        },
                decreases self.value_width - i,
            {
                let byte = if i < part_high {
                    low.byte(part_low + i)
                } else if i < size {
                    high.byte(i - part_high)
                } else {
                    0u8
                };
                buf.push(byte);
                i = i + 1;
            }
            let value = Word::from_bytes(&buf);
            assert(value@ =~= read_bytes(
                self.memory(),
                self.spec_cell_size(),
                self.spec_value_width(),
                address,
            ));
            value
        }
    }

    /// Puts a record of the access at the end of the trace, stamped with the
    /// time, and moves the time on.
    fn record(&mut self, instruction: MemoryInstruction, address: u64, value: Word)
        requires
            old(self).context.time_log == old(self).trace.len(),
            forall|i: int|
                0 <= i < old(self).trace.len() ==> (#[trigger] old(self).trace[i]).time_log == i,
        ensures
            final(self).store == old(self).store,
            final(self).cell_size == old(self).cell_size,
            final(self).value_width == old(self).value_width,
            final(self).context == (MachineContext {
                time_log: final(self).trace.len(),
                ..old(self).context
            }),
            forall|i: int|
                0 <= i < final(self).trace.len() ==> (#[trigger] final(self).trace[i]).time_log
                    == i,
            final(self).events() == old(self).events().push(
                Event {
                    time_log: old(self).trace.len() as nat,
                    address,
                    instruction,
                    value: value@,
                },
            ),
    {
        let time_log = self.context.time_log;
        self.trace.push(TraceRecord { time_log, address, instruction, value });
        self.context.time_log = self.trace.len();
        assert(self.events() =~= old(self).events().push(
            Event { time_log: time_log as nat, address, instruction, value: value@ },
        ));
    }

    /// Reads at the address, which need not be a multiple of the cell size,
    /// and puts the read on the trace.
    pub fn read(&mut self, address: u64) -> (value: Word)
        requires
            old(self).wf(),
        ensures
            final(self).wf(),
            value@ == read_bytes(
                old(self).memory(),
                old(self).spec_cell_size(),
                old(self).spec_value_width(),
                address,
            ),
            value@.len() == old(self).spec_value_width(),
            final(self).spec_cell_size() == old(self).spec_cell_size(),
            final(self).spec_value_width() == old(self).spec_value_width(),
            final(self).memory() == old(self).memory(),
            final(self).events() == old(self).events().push(
                Event {
                    time_log: old(self).spec_context().time_log as nat,
                    address,
                    instruction: MemoryInstruction::Read,
                    value: value@,
                },
            ),
            final(self).spec_context() == old(self).spec_context().after_access(),
    {
        let value = self.load(address);
        self.record(MemoryInstruction::Read, address, value.clone());
        proof {
            assert(self.events().drop_last() =~= old(self).events());
        }
        value
    }

    /// Writes the value at the address, which need not be a multiple of the
    /// cell size, and puts the write on the trace. A value of another width
    /// than the machine's is refused, and nothing changes.
    pub fn write(&mut self, address: u64, value: Word) -> (r: Result<(), Error>)
        requires
            old(self).wf(),
        ensures
            final(self).wf(),
            final(self).spec_cell_size() == old(self).spec_cell_size(),
            final(self).spec_value_width() == old(self).spec_value_width(),
            r is Err <==> value@.len() != old(self).spec_value_width(),
            r is Err ==> {
                &&& r->Err_0 == Error::ValueWidthMismatch
                &&& final(self).memory() == old(self).memory()
                &&& final(self).events() == old(self).events()
                &&& final(self).spec_context() == old(self).spec_context()
            },
            r is Ok ==> {
                &&& final(self).spec_context() == old(self).spec_context().after_access()
                &&& final(self).memory() == write_bytes(
                    old(self).memory(),
                    old(self).spec_cell_size(),
                    old(self).spec_value_width(),
                    address,
                    value@,
                )
                &&& final(self).events() == old(self).events().push(
                    Event {
                        time_log: old(self).spec_context().time_log as nat,
                        address,
                        instruction: MemoryInstruction::Write,
                        value: value@,
                    },
                )
            },
    {
        if value.width() != self.value_width {
            return Err(Error::ValueWidthMismatch);
        }
        let ghost before = self.store@;
        let ghost width = self.value_width as nat;
        proof {
            lemma_write_well_formed(before, self.cell_size, width, address, value@);
        }
        let remain = address % self.cell_size;
        if remain == 0 {
            self.store.replace_or_insert(address, value.clone());
        } else {
            proof {
                lemma_cells_of_access(self.cell_size, address);
            }
            let low_address = address - remain;
            let high_address = low_address.wrapping_add(self.cell_size);
            let low = self.fetch(low_address);
            let high = self.fetch(high_address);
            let size = self.cell_size as usize;
            let part_low = remain as usize;
            let part_high = size - part_low;
            let mut new_low: Vec<u8> = Vec::new();
            let mut new_high: Vec<u8> = Vec::new();
            let mut i: usize = 0;
            while i < self.value_width
                invariant
                    i <= self.value_width,
                    new_low.len() == i,
                    new_high.len() == i,
                    0 < part_low < size <= self.value_width,
                    part_high == size - part_low,
                    low@.len() == self.value_width,
                    high@.len() == self.value_width,
                    value@.len() == self.value_width,
                    forall|k: int|
                        0 <= k < i ==> #[trigger] new_low[k] == if part_low <= k < size {
                            value@[k - part_low]
                        } else {
                            low@[k]
                        },
                    forall|k: int|
                        0 <= k < i ==> #[trigger] new_high[k] == if k < part_low {
                            value@[part_high + k]
                        } else {
                            high@[k]
                        },
                decreases self.value_width - i,
            {
                let low_byte = if part_low <= i && i < size {
                    value.byte(i - part_low)
                } else {
                    low.byte(i)
                };
                let high_byte = if i < part_low {
                    value.byte(part_high + i)
                } else {
                    high.byte(i)
                };
                new_low.push(low_byte);
                new_high.push(high_byte);
                i = i + 1;
            }
            assert(new_low@ =~= written_low(low@, self.cell_size, width, address, value@));
            assert(new_high@ =~= written_high(high@, self.cell_size, width, address, value@));
            self.store.replace_or_insert(low_address, Word::from_bytes(&new_low));
            self.store.replace_or_insert(high_address, Word::from_bytes(&new_high));
        }
        assert(self.store@ == write_bytes(before, self.cell_size, width, address, value@));
        self.record(MemoryInstruction::Write, address, value);
        proof {
            assert(self.events().drop_last() =~= old(self).events());
        }
        Ok(())
    }

    /// Executes the instruction. A read is put on the trace and then held
    /// against the value that the instruction expects; a write is done; and
    /// `Invalid` is refused, with nothing changed.
    pub fn exec(&mut self, instruction: &Instruction) -> (r: Result<(), Error>)
        requires
            old(self).wf(),
        ensures
            final(self).wf(),
            final(self).spec_cell_size() == old(self).spec_cell_size(),
            final(self).spec_value_width() == old(self).spec_value_width(),
            match *instruction {
                Instruction::Read(address, expected) => {
                    let value = read_bytes(
                        old(self).memory(),
                        old(self).spec_cell_size(),
                        old(self).spec_value_width(),
                        address,
                    );
                    &&& r is Ok <==> value == expected@
                    &&& r is Err ==> r->Err_0 == Error::UnexpectedValue
                    &&& final(self).spec_context() == old(self).spec_context().after_access()
                    &&& final(self).memory() == old(self).memory()
                    &&& final(self).events() == old(self).events().push(
                        Event {
                            time_log: old(self).spec_context().time_log as nat,
                            address,
                            instruction: MemoryInstruction::Read,
                            value,
                        },
                    )
                },
                Instruction::Write(address, value) => {
                    if value@.len() == old(self).spec_value_width() {
                        &&& r is Ok
                        &&& final(self).spec_context() == old(self).spec_context().after_access()
                        &&& final(self).memory() == write_bytes(
                            old(self).memory(),
                            old(self).spec_cell_size(),
                            old(self).spec_value_width(),
                            address,
                            value@,
                        )
                        &&& final(self).events() == old(self).events().push(
                            Event {
                                time_log: old(self).spec_context().time_log as nat,
                                address,
                                instruction: MemoryInstruction::Write,
                                value: value@,
                            },
                        )
                    } else {
                        &&& r is Err
                        &&& r->Err_0 == Error::ValueWidthMismatch
                        &&& final(self).spec_context() == old(self).spec_context()
                        &&& final(self).memory() == old(self).memory()
                        &&& final(self).events() == old(self).events()
                    }
                },
                Instruction::Invalid => {
                    &&& r is Err
                    &&& r->Err_0 == Error::InvalidInstruction
                    &&& final(self).spec_context() == old(self).spec_context()
                    &&& final(self).memory() == old(self).memory()
                    &&& final(self).events() == old(self).events()
                },
            },
    {
        match instruction {
            Instruction::Read(address, expected) => {
                let value = self.read(*address);
                if value.equals(expected) {
                    Ok(())
                } else {
                    Err(Error::UnexpectedValue)
                }
            },
            Instruction::Write(address, value) => self.write(*address, value.clone()),
            Instruction::Invalid => Err(Error::InvalidInstruction),
        }
    }
}

} // verus!
