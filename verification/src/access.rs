//! What a read and a write mean on a memory made of cells: an access at an
//! address that is no multiple of the cell size takes the end of one cell
//! and the start of the next.

use crate::word::zeros;
use vstd::prelude::*;

verus! {

/// What the memory holds at the address of a cell: the bytes stored there, or
/// zeros where nothing was stored.
pub open spec fn cell(cells: Map<u64, Seq<u8>>, width: nat, address: u64) -> Seq<u8> {
    if cells.contains_key(address) {
        cells[address]
    } else {
        zeros(width)
    }
}

/// The address is a multiple of the cell size.
pub open spec fn aligned(cell_size: u64, address: u64) -> bool {
    address as int % cell_size as int == 0
}

/// The address of the cell that the address falls in.
pub open spec fn low_cell(cell_size: u64, address: u64) -> u64 {
    (address as int - address as int % cell_size as int) as u64
}

/// The address of the cell after the one that the address falls in. Past the
/// end of the address space it wraps around.
pub open spec fn high_cell(cell_size: u64, address: u64) -> u64 {
    let next = low_cell(cell_size, address) as int + cell_size as int;
    if next > u64::MAX {
        (next - 0x1_0000_0000_0000_0000) as u64
    } else {
        next as u64
    }
}

/// The addresses of the cells that an access at the address touches.
pub open spec fn footprint(cell_size: u64, address: u64) -> Set<u64> {
    if aligned(cell_size, address) {
        set![address]
    } else {
        set![low_cell(cell_size, address), high_cell(cell_size, address)]
    }
}

/// The bytes that a read at the address yields. At a multiple of the cell
/// size it is the cell. Elsewhere the bytes of the low cell from the address
/// on come first, the bytes of the high cell up to the address follow, and
/// what is left of the width is 0.
pub open spec fn read_bytes(
    cells: Map<u64, Seq<u8>>,
    cell_size: u64,
    width: nat,
    address: u64,
) -> Seq<u8> {
    if aligned(cell_size, address) {
        cell(cells, width, address)
    } else {
        let low = cell(cells, width, low_cell(cell_size, address));
        let high = cell(cells, width, high_cell(cell_size, address));
        let part_low = address as int % cell_size as int;
        let part_high = cell_size as int - part_low;
        Seq::new(
            width,
            |i: int|
                if i < part_high {
                    low[part_low + i]
                } else if i < cell_size {
                    high[i - part_high]
                } else {
                    0u8
                },
        )
    }
}

/// The low cell after a write that straddles it: from the address on it
/// holds the first bytes of the value, and the rest is as before.
pub open spec fn written_low(low: Seq<u8>, cell_size: u64, width: nat, address: u64, value: Seq<u8>) -> Seq<
    u8,
> {
    let part_low = address as int % cell_size as int;
    Seq::new(
        width,
        |i: int|
            if part_low <= i < cell_size {
                value[i - part_low]
            } else {
                low[i]
            },
    )
}

/// The high cell after a write that straddles it: up to the address it holds
/// the bytes of the value that the low cell had no room for, and the rest is
/// as before.
pub open spec fn written_high(
    high: Seq<u8>,
    cell_size: u64,
    width: nat,
    address: u64,
    value: Seq<u8>,
) -> Seq<u8> {
    let part_low = address as int % cell_size as int;
    let part_high = cell_size as int - part_low;
    Seq::new(
        width,
        |i: int|
            if i < part_low {
                value[part_high + i]
            } else {
                high[i]
            },
    )
}

/// The memory after a write of the value at the address. At a multiple of
/// the cell size the value takes the place of the cell. Elsewhere the two
/// cells that the access touches are written in part.
pub open spec fn write_bytes(
    cells: Map<u64, Seq<u8>>,
    cell_size: u64,
    width: nat,
    address: u64,
    value: Seq<u8>,
) -> Map<u64, Seq<u8>> {
    if aligned(cell_size, address) {
        cells.insert(address, value)
    } else {
        let low_address = low_cell(cell_size, address);
        let high_address = high_cell(cell_size, address);
        let low = cell(cells, width, low_address);
        let high = cell(cells, width, high_address);
        cells.insert(low_address, written_low(low, cell_size, width, address, value)).insert(
            high_address,
            written_high(high, cell_size, width, address, value),
        )
    }
}

/// The address is that of a cell: a multiple of the cell size, or what the
/// multiple after the last one in the address space wraps around to.
pub open spec fn is_cell_address(cell_size: u64, address: u64) -> bool {
    ||| address as int % cell_size as int == 0
    ||| address < cell_size && (address as int + 0x1_0000_0000_0000_0000) % cell_size as int == 0
}

/// Every value in the memory has the given width and sits at the address of
/// a cell.
pub open spec fn well_formed(cells: Map<u64, Seq<u8>>, cell_size: u64, width: nat) -> bool {
    forall|a: u64| #[trigger]
        cells.contains_key(a) ==> cells[a].len() == width && is_cell_address(cell_size, a)
}

/// The two cells of an access that straddles a boundary are cells, and they
/// differ.
pub proof fn lemma_cells_of_access(cell_size: u64, address: u64)
    requires
        cell_size > 0,
    ensures
        is_cell_address(cell_size, low_cell(cell_size, address)),
        is_cell_address(cell_size, high_cell(cell_size, address)),
        low_cell(cell_size, address) != high_cell(cell_size, address),
        low_cell(cell_size, address) <= address,
        address - low_cell(cell_size, address) == address as int % cell_size as int,
{
    let c = cell_size as int;
    let a = address as int;
    let low = a - a % c;
    vstd::arithmetic::div_mod::lemma_fundamental_div_mod(a, c);
    assert(low == c * (a / c));
    vstd::arithmetic::div_mod::lemma_mod_multiples_basic(a / c, c);
    assert(low % c == 0) by {
        assert(c * (a / c) == (a / c) * c) by (nonlinear_arith);
    }
    vstd::arithmetic::div_mod::lemma_mod_multiples_vanish(1, low, c);
    assert((low + c) % c == 0) by {
        assert(c * 1 + low == low + c);
    }
}

/// A write keeps the memory well formed.
pub proof fn lemma_write_well_formed(
    cells: Map<u64, Seq<u8>>,
    cell_size: u64,
    width: nat,
    address: u64,
    value: Seq<u8>,
)
    requires
        cell_size > 0,
        value.len() == width,
        well_formed(cells, cell_size, width),
    ensures
        well_formed(write_bytes(cells, cell_size, width, address, value), cell_size, width),
{
    lemma_cells_of_access(cell_size, address);
}

/// A write followed by a read at the same address yields the value written,
/// whatever the address is modulo the cell size. Where the cell size is
/// smaller than the width, an access that straddles two cells carries only
/// the first `cell_size` bytes of the value, so the others have to be 0.
pub proof fn lemma_write_then_read(
    cells: Map<u64, Seq<u8>>,
    cell_size: u64,
    width: nat,
    address: u64,
    value: Seq<u8>,
)
    requires
        0 < cell_size <= width,
        value.len() == width,
        aligned(cell_size, address) || forall|i: int| cell_size <= i < width ==> value[i] == 0,
    ensures
        read_bytes(write_bytes(cells, cell_size, width, address, value), cell_size, width, address)
            == value,
{
    lemma_cells_of_access(cell_size, address);
    assert(read_bytes(
        write_bytes(cells, cell_size, width, address, value),
        cell_size,
        width,
        address,
    ) =~= value);
}

/// A write at one address does not change what a read yields at another,
/// where the two accesses touch no cell in common.
pub proof fn lemma_write_elsewhere(
    cells: Map<u64, Seq<u8>>,
    cell_size: u64,
    width: nat,
    written: u64,
    value: Seq<u8>,
    read: u64,
)
    requires
        cell_size > 0,
        footprint(cell_size, written).disjoint(footprint(cell_size, read)),
    ensures
        read_bytes(write_bytes(cells, cell_size, width, written, value), cell_size, width, read)
            == read_bytes(cells, cell_size, width, read),
{
    let after = write_bytes(cells, cell_size, width, written, value);
    assert forall|a: u64| footprint(cell_size, read).contains(a) implies cell(after, width, a)
        == cell(cells, width, a) by {
        assert(!footprint(cell_size, written).contains(a));
    }
    if aligned(cell_size, read) {
        assert(footprint(cell_size, read).contains(read));
    } else {
        assert(footprint(cell_size, read).contains(low_cell(cell_size, read)));
        assert(footprint(cell_size, read).contains(high_cell(cell_size, read)));
    }
}

/// A read where no cell of the access was ever stored yields zeros.
pub proof fn lemma_read_of_unwritten(
    cells: Map<u64, Seq<u8>>,
    cell_size: u64,
    width: nat,
    address: u64,
)
    requires
        0 < cell_size <= width,
        forall|a: u64| footprint(cell_size, address).contains(a) ==> !cells.contains_key(a),
    ensures
        read_bytes(cells, cell_size, width, address) == zeros(width),
{
    if aligned(cell_size, address) {
        assert(footprint(cell_size, address).contains(address));
    } else {
        assert(footprint(cell_size, address).contains(low_cell(cell_size, address)));
        assert(footprint(cell_size, address).contains(high_cell(cell_size, address)));
        assert(read_bytes(cells, cell_size, width, address) =~= zeros(width));
    }
}

} // verus!
