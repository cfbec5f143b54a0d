use zkmemory::machine::{
    Error, Instruction, MachineContext, MemoryInstruction, MemoryMachine, TraceRecord,
};
use zkmemory::memory::MemoryStore;
use zkmemory::word::Word;

fn word(bytes: &[u8]) -> Word {
    Word::from_bytes(&bytes.to_vec())
}

fn counting(width: usize, from: u8) -> Word {
    Word::from_bytes(&(0..width).map(|i| from.wrapping_add(i as u8)).collect())
}

#[test]
fn word_keeps_its_bytes() {
    let w = word(&[1, 2, 3]);
    assert_eq!(w.to_bytes(), vec![1, 2, 3]);
    assert_eq!(w.width(), 3);
    assert_eq!(w.byte(0), 1);
    assert_eq!(w.byte(2), 3);
    assert_eq!(w.clone(), w);
    assert!(w.equals(&word(&[1, 2, 3])));
    assert!(!w.equals(&word(&[1, 2, 4])));
    assert!(!w.equals(&word(&[1, 2])));
    assert!(!w.is_zero());
}

#[test]
fn word_zero_is_all_zero_bytes() {
    assert_eq!(Word::zero(4).to_bytes(), vec![0, 0, 0, 0]);
    assert!(Word::zero(4).is_zero());
    assert!(Word::zero(0).is_zero());
    assert!(!word(&[0, 0, 1, 0]).is_zero());
    assert!(word(&[0, 0]).is_zero());
}

#[test]
fn store_gets_what_was_put() {
    let mut store = MemoryStore::new();
    assert_eq!(store.get(8), None);
    assert_eq!(store.insert(8, word(&[1, 2])), None);
    assert_eq!(store.get(8), Some(word(&[1, 2])));
    assert_eq!(store.get(16), None);
    assert_eq!(store.insert(8, word(&[3, 4])), Some(word(&[1, 2])));
    assert_eq!(store.get(8), Some(word(&[3, 4])));
    store.replace_or_insert(8, word(&[5, 6]));
    store.replace_or_insert(8, word(&[5, 6]));
    store.replace_or_insert(0, word(&[7, 8]));
    assert_eq!(store.get(8), Some(word(&[5, 6])));
    assert_eq!(store.get(0), Some(word(&[7, 8])));
}

#[test]
fn cell_size_has_to_divide_the_width() {
    assert_eq!(MemoryMachine::new(0, 32).err(), Some(Error::InvalidCellSize));
    assert_eq!(MemoryMachine::new(32, 0).err(), Some(Error::InvalidCellSize));
    assert_eq!(MemoryMachine::new(3, 32).err(), Some(Error::InvalidCellSize));
    assert_eq!(MemoryMachine::new(64, 32).err(), Some(Error::InvalidCellSize));
    assert_eq!(MemoryMachine::new(33, 32).err(), Some(Error::InvalidCellSize));
    assert!(MemoryMachine::new(32, 32).is_ok());
    assert!(MemoryMachine::new(8, 32).is_ok());
    assert!(MemoryMachine::new(1, 1).is_ok());
    let machine = MemoryMachine::new(8, 32).unwrap();
    assert_eq!(machine.cell_size(), 8);
    assert_eq!(machine.value_width(), 32);
    assert_eq!(
        machine.context(),
        MachineContext { time_log: 0, stack_base: 0, stack_depth: 0, stack_ptr: 0 }
    );
    assert_eq!(machine.trace(), vec![]);
}

#[test]
fn write_then_read_returns_the_value_at_every_offset() {
    for remain in 0..8u64 {
        let mut machine = MemoryMachine::new(8, 8).unwrap();
        // Fill the two cells first, so that what is left of them shows.
        machine.write(16, counting(8, 100)).unwrap();
        machine.write(24, counting(8, 200)).unwrap();
        let value = word(&[1, 2, 3, 4, 5, 6, 7, 8]);
        machine.write(16 + remain, value.clone()).unwrap();
        assert_eq!(machine.read(16 + remain), value);
    }
}

#[test]
fn unwritten_addresses_read_zero() {
    let mut machine = MemoryMachine::new(4, 4).unwrap();
    assert_eq!(machine.read(0), Word::zero(4));
    assert_eq!(machine.read(7), Word::zero(4));
    assert_eq!(machine.read(u64::MAX), Word::zero(4));
    machine.write(8, word(&[1, 2, 3, 4])).unwrap();
    assert_eq!(machine.read(0), Word::zero(4));
    assert_eq!(machine.read(3), Word::zero(4));
    assert_eq!(machine.read(12), Word::zero(4));
    assert_eq!(machine.read(13), Word::zero(4));
}

#[test]
fn writes_do_not_reach_other_cells() {
    let mut machine = MemoryMachine::new(4, 4).unwrap();
    machine.write(0, word(&[1, 1, 1, 1])).unwrap();
    machine.write(4, word(&[2, 2, 2, 2])).unwrap();
    machine.write(8, word(&[3, 3, 3, 3])).unwrap();
    machine.write(12, word(&[4, 4, 4, 4])).unwrap();
    machine.write(16, word(&[5, 5, 5, 5])).unwrap();
    // Cells 4 and 8 are written; 0, 12 and 16 are not touched.
    machine.write(6, word(&[9, 9, 9, 9])).unwrap();
    assert_eq!(machine.read(0), word(&[1, 1, 1, 1]));
    assert_eq!(machine.read(12), word(&[4, 4, 4, 4]));
    assert_eq!(machine.read(13), word(&[4, 4, 4, 5]));
    assert_eq!(machine.read(16), word(&[5, 5, 5, 5]));
    assert_eq!(machine.read(4), word(&[2, 2, 9, 9]));
    assert_eq!(machine.read(8), word(&[9, 9, 3, 3]));
}

#[test]
fn a_write_across_the_boundary_splits_evenly() {
    let mut machine = MemoryMachine::new(32, 32).unwrap();
    machine.write(0, counting(32, 0)).unwrap();
    machine.write(32, counting(32, 100)).unwrap();
    let value = counting(32, 200);
    machine.write(16, value.clone()).unwrap();
    let low = machine.read(0).to_bytes();
    let high = machine.read(32).to_bytes();
    // The first half of the low cell and the second half of the high cell
    // are as they were.
    assert_eq!(low[..16], counting(32, 0).to_bytes()[..16]);
    assert_eq!(high[16..], counting(32, 100).to_bytes()[16..]);
    // The halves between hold the value.
    assert_eq!(low[16..], value.to_bytes()[..16]);
    assert_eq!(high[..16], value.to_bytes()[16..]);
    assert_eq!(machine.read(16), value);
}

#[test]
fn an_unaligned_read_takes_the_end_of_one_cell_and_the_start_of_the_next() {
    let mut machine = MemoryMachine::new(4, 4).unwrap();
    machine.write(0, word(&[1, 2, 3, 4])).unwrap();
    machine.write(4, word(&[5, 6, 7, 8])).unwrap();
    assert_eq!(machine.read(1), word(&[2, 3, 4, 5]));
    assert_eq!(machine.read(2), word(&[3, 4, 5, 6]));
    assert_eq!(machine.read(3), word(&[4, 5, 6, 7]));
    assert_eq!(machine.read(5), word(&[6, 7, 8, 0]));
}

#[test]
fn a_cell_smaller_than_the_value_carries_its_first_bytes() {
    let mut machine = MemoryMachine::new(2, 4).unwrap();
    machine.write(4, word(&[1, 2, 3, 4])).unwrap();
    assert_eq!(machine.read(4), word(&[1, 2, 3, 4]));
    machine.write(6, word(&[5, 6, 7, 8])).unwrap();
    assert_eq!(machine.read(5), word(&[2, 5, 0, 0]));
    machine.write(5, word(&[9, 8, 0, 0])).unwrap();
    assert_eq!(machine.read(5), word(&[9, 8, 0, 0]));
    assert_eq!(machine.read(4), word(&[1, 9, 3, 4]));
    assert_eq!(machine.read(6), word(&[8, 6, 7, 8]));
}

#[test]
fn the_last_cell_wraps_around() {
    let mut machine = MemoryMachine::new(4, 4).unwrap();
    let value = word(&[1, 2, 3, 4]);
    machine.write(u64::MAX - 1, value.clone()).unwrap();
    assert_eq!(machine.read(u64::MAX - 1), value);
    assert_eq!(machine.read(u64::MAX - 3), word(&[0, 0, 1, 2]));
    assert_eq!(machine.read(0), word(&[3, 4, 0, 0]));
}

#[test]
fn a_value_of_another_width_is_refused() {
    let mut machine = MemoryMachine::new(4, 4).unwrap();
    assert_eq!(machine.write(0, word(&[1, 2, 3])), Err(Error::ValueWidthMismatch));
    assert_eq!(machine.write(1, word(&[1, 2, 3, 4, 5])), Err(Error::ValueWidthMismatch));
    assert_eq!(machine.trace(), vec![]);
    assert_eq!(machine.read(0), Word::zero(4));
}

#[test]
fn the_trace_records_every_access_in_order() {
    let mut machine = MemoryMachine::new(4, 4).unwrap();
    machine.write(6, word(&[1, 2, 3, 4])).unwrap();
    machine.read(4);
    machine.read(6);
    assert_eq!(
        machine.trace(),
        vec![
            TraceRecord {
                time_log: 0,
                address: 6,
                instruction: MemoryInstruction::Write,
                value: word(&[1, 2, 3, 4]),
            },
            TraceRecord {
                time_log: 1,
                address: 4,
                instruction: MemoryInstruction::Read,
                value: word(&[0, 0, 1, 2]),
            },
            TraceRecord {
                time_log: 2,
                address: 6,
                instruction: MemoryInstruction::Read,
                value: word(&[1, 2, 3, 4]),
            },
        ]
    );
    assert_eq!(machine.context().time_log, 3);
}

#[test]
fn instructions_are_dispatched() {
    let mut machine = MemoryMachine::new(4, 4).unwrap();
    assert_eq!(machine.exec(&Instruction::Write(2, word(&[1, 2, 3, 4]))), Ok(()));
    assert_eq!(machine.exec(&Instruction::Read(2, word(&[1, 2, 3, 4]))), Ok(()));
    assert_eq!(
        machine.exec(&Instruction::Read(2, word(&[1, 2, 3, 5]))),
        Err(Error::UnexpectedValue)
    );
    assert_eq!(machine.exec(&Instruction::Invalid), Err(Error::InvalidInstruction));
    assert_eq!(
        machine.exec(&Instruction::Write(2, word(&[1, 2]))),
        Err(Error::ValueWidthMismatch)
    );
    // The invalid instruction and the refused write left no record.
    let trace = machine.trace();
    assert_eq!(trace.len(), 3);
    assert_eq!(trace[2].time_log, 2);
    assert_eq!(trace[2].instruction, MemoryInstruction::Read);
    assert_eq!(trace[2].value, word(&[1, 2, 3, 4]));
}

#[test]
fn word_from_u64_is_big_endian() {
    assert_eq!(Word::from_u64(4, 0x01020304).to_bytes(), vec![1, 2, 3, 4]);
    assert_eq!(Word::from_u64(8, 1025).to_bytes(), vec![0, 0, 0, 0, 0, 0, 4, 1]);
    assert_eq!(
        Word::from_u64(10, u64::MAX).to_bytes(),
        vec![0, 0, 255, 255, 255, 255, 255, 255, 255, 255]
    );
    // A width too small keeps the low bytes.
    assert_eq!(Word::from_u64(2, 0x01020304).to_bytes(), vec![3, 4]);
    assert_eq!(Word::from_u64(0, 7).to_bytes(), Vec::<u8>::new());
    assert_eq!(Word::from_u64(32, 3735013596).to_bytes()[28..], [0xde, 0x9f, 0xc8, 0xdc]);
}

#[test]
fn word_addition_wraps_at_the_width() {
    let a = Word::from_u64(2, 0xfffe);
    assert_eq!(a.wrapping_add(&Word::from_u64(2, 1)), Word::from_u64(2, 0xffff));
    assert_eq!(a.wrapping_add(&Word::from_u64(2, 2)), Word::zero(2));
    assert_eq!(a.wrapping_add(&Word::from_u64(2, 5)), Word::from_u64(2, 3));
    assert_eq!(
        Word::from_u64(4, 0x00ff_00ff).wrapping_add(&Word::from_u64(4, 0x0001_0001)),
        Word::from_u64(4, 0x0100_0100)
    );
    assert_eq!(
        Word::from_u64(32, 1025).wrapping_add(&Word::from_u64(32, 3735013596)),
        Word::from_u64(32, 3735014621)
    );
    assert_eq!(Word::zero(0).wrapping_add(&Word::zero(0)), Word::zero(0));
    let top = word(&[255; 32]);
    assert_eq!(top.wrapping_add(&Word::from_u64(32, 1)), Word::zero(32));
}

#[test]
fn word_subtraction_wraps_below_zero() {
    assert_eq!(
        Word::from_u64(2, 5).wrapping_sub(&Word::from_u64(2, 3)),
        Word::from_u64(2, 2)
    );
    assert_eq!(
        Word::from_u64(2, 3).wrapping_sub(&Word::from_u64(2, 5)),
        Word::from_u64(2, 0xfffe)
    );
    assert_eq!(
        Word::from_u64(4, 0x0100_0000).wrapping_sub(&Word::from_u64(4, 1)),
        Word::from_u64(4, 0x00ff_ffff)
    );
    assert_eq!(Word::zero(32).wrapping_sub(&Word::from_u64(32, 1)), word(&[255; 32]));
    assert_eq!(
        Word::from_u64(8, 77).wrapping_sub(&Word::from_u64(8, 77)),
        Word::zero(8)
    );
}

#[test]
fn word_remainder() {
    assert_eq!(Word::from_u64(8, 1000).rem(32), 8);
    assert_eq!(Word::from_u64(8, 1024).rem(32), 0);
    assert_eq!(Word::from_u64(8, u64::MAX).rem(u64::MAX), 0);
    assert_eq!(Word::from_u64(8, u64::MAX - 1).rem(u64::MAX), u64::MAX - 1);
    assert_eq!(Word::from_u64(8, 5).rem(1), 0);
    // 2^64 mod 10 is 6.
    assert_eq!(word(&[1, 0, 0, 0, 0, 0, 0, 0, 0]).rem(10), 6);
    // 2^72 - 1 mod (2^64 - 1) is 255.
    assert_eq!(word(&[255; 9]).rem(u64::MAX), 255);
    assert_eq!(Word::zero(0).rem(7), 0);
}

#[test]
fn the_trace_by_address_keeps_the_times_at_one_address() {
    let mut machine = MemoryMachine::new(4, 4).unwrap();
    machine.write(8, word(&[1, 1, 1, 1])).unwrap();
    machine.write(4, word(&[2, 2, 2, 2])).unwrap();
    machine.read(8);
    machine.read(0);
    machine.write(4, word(&[3, 3, 3, 3])).unwrap();
    let sorted = machine.trace_by_address();
    let keys: Vec<(u64, usize)> = sorted.iter().map(|r| (r.address, r.time_log)).collect();
    assert_eq!(keys, vec![(0, 3), (4, 1), (4, 4), (8, 0), (8, 2)]);
    assert_eq!(sorted[2].value, word(&[3, 3, 3, 3]));
    assert_eq!(sorted[4].instruction, MemoryInstruction::Read);
    // The trace itself stays in the order of the times.
    let times: Vec<usize> = machine.trace().iter().map(|r| r.time_log).collect();
    assert_eq!(times, vec![0, 1, 2, 3, 4]);
    assert_eq!(MemoryMachine::new(4, 4).unwrap().trace_by_address(), vec![]);
}
