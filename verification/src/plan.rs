//! The write transactions that each operation of the driver puts on the bus.
//!
//! The chip programs at most one page per command and erases a sector, a
//! half block, a block or everything per command. A write or an erase of
//! any range is a sequence of such commands, each after a write enable.

use crate::bus::{issued_within, written, Image, Transaction};
use crate::commands::{
    addressed, quad_write_frame, QspiMode, WriteFrame, OPCODE_ERASE_BLOCK, OPCODE_ERASE_CHIP,
    OPCODE_ERASE_HALF_BLOCK, OPCODE_ERASE_SECTOR, OPCODE_WRITE_ENABLE, OPCODE_WRITE_STATUS,
};
use crate::flash_params::{
    BASE_ADDRESS, BLOCK_SIZE, HALFBLOCK_SIZE, MEMORY_SIZE, PAGE_SIZE, SECTOR_SIZE,
};
use crate::program::{overlaid, programmable};
use crate::status::QE;
use vstd::prelude::*;

verus! {

/// The write of the status register that switches on the quad output.
pub open spec fn enable_quad() -> WriteFrame {
    WriteFrame::bare(OPCODE_WRITE_STATUS).with_data(seq![QE], QspiMode::SingleChannel)
}

/// The command that sets the write enable latch.
pub open spec fn write_enable_frame() -> WriteFrame {
    WriteFrame::bare(OPCODE_WRITE_ENABLE)
}

/// The program of `data` at `address`, with the data on four lines.
pub open spec fn page_program(address: u32, data: Seq<u8>) -> WriteFrame {
    quad_write_frame().with_address(address, QspiMode::SingleChannel).with_data(
        data,
        QspiMode::QuadChannel,
    )
}

/// The erase command `opcode` for the unit that starts at `address`.
pub open spec fn erase_frame(opcode: u8, address: u32) -> WriteFrame {
    addressed(opcode, 0).with_address(address, QspiMode::SingleChannel)
}

/// What programming one page issues.
pub open spec fn page_program_commands(address: u32, data: Seq<u8>) -> Seq<WriteFrame> {
    seq![write_enable_frame(), page_program(address, data)]
}

/// What erasing one unit issues.
pub open spec fn erase_unit_commands(opcode: u8, address: u32) -> Seq<WriteFrame> {
    seq![write_enable_frame(), erase_frame(opcode, address)]
}

/// What erasing the whole chip issues.
pub open spec fn chip_erase_commands() -> Seq<WriteFrame> {
    seq![write_enable_frame(), WriteFrame::bare(OPCODE_ERASE_CHIP)]
}

/// A unit of erasure: a sector, a half block or a block, by its first
/// address and its size.
pub struct Unit {
    pub start: int,
    pub size: int,
}

impl Unit {
    /// Whether this is a sector, a half block or a block of the memory map:
    /// of one of the three sizes, and starting at a multiple of its size.
    pub open spec fn valid(self) -> bool {
        &&& self.size == SECTOR_SIZE || self.size == HALFBLOCK_SIZE || self.size == BLOCK_SIZE
        &&& self.start >= BASE_ADDRESS
        &&& (self.start - BASE_ADDRESS) % self.size == 0
    }

    /// The erase command for a unit of this size.
    pub open spec fn opcode(self) -> u8 {
        if self.size == BLOCK_SIZE {
            OPCODE_ERASE_BLOCK
        } else if self.size == HALFBLOCK_SIZE {
            OPCODE_ERASE_HALF_BLOCK
        } else {
            OPCODE_ERASE_SECTOR
        }
    }

    /// What erasing the unit issues.
    pub open spec fn commands(self) -> Seq<WriteFrame> {
        erase_unit_commands(self.opcode(), self.start as u32)
    }
}

/// Whether a unit of `size` bytes starts at `from` and ends at or before
/// `to`.
pub open spec fn fits_at(size: int, from: int, to: int) -> bool {
    (from - BASE_ADDRESS) % size == 0 && from + size <= to
}

/// The size of the largest unit that starts at `from` and does not reach
/// beyond `to`. Where none fits, it is the sector.
pub open spec fn unit_size(from: int, to: int) -> int {
    if fits_at(BLOCK_SIZE as int, from, to) {
        BLOCK_SIZE as int
    } else if fits_at(HALFBLOCK_SIZE as int, from, to) {
        HALFBLOCK_SIZE as int
    } else {
        SECTOR_SIZE as int
    }
}

/// How many bytes lie from `from` up to `to`.
pub open spec fn span(from: int, to: int) -> nat {
    if from < to {
        (to - from) as nat
    } else {
        0
    }
}

/// The units that an erase from `from` to `to` takes: at each position the
/// largest that fits, as far as the chip reaches.
pub open spec fn walk(from: int, to: int) -> Seq<Unit>
    decreases span(from, to),
{
    if from >= to || from < BASE_ADDRESS || from >= BASE_ADDRESS + MEMORY_SIZE {
        Seq::empty()
    } else {
        seq![Unit { start: from, size: unit_size(from, to) }] + walk(
            from + unit_size(from, to),
            to,
        )
    }
}

/// What erasing the units one after the other issues.
pub open spec fn unit_commands(units: Seq<Unit>) -> Seq<WriteFrame>
    decreases units.len(),
{
    if units.len() == 0 {
        Seq::empty()
    } else {
        units[0].commands() + unit_commands(units.skip(1))
    }
}

/// What erasing from `from` to `to` unit by unit issues.
pub open spec fn erase_walk(from: int, to: int) -> Seq<WriteFrame> {
    unit_commands(walk(from, to))
}

/// What erasing the range from `from` to `to` issues.
pub open spec fn erase_commands(from: int, to: int) -> Seq<WriteFrame> {
    if from == BASE_ADDRESS && to == BASE_ADDRESS + MEMORY_SIZE {
        chip_erase_commands()
    } else {
        erase_walk(from, to)
    }
}

/// Whether the units follow one another from `from` to `to` without gap or
/// overlap.
pub open spec fn covers(units: Seq<Unit>, from: int, to: int) -> bool
    decreases units.len(),
{
    if units.len() == 0 {
        from == to
    } else {
        units[0].valid() && units[0].start == from && covers(
            units.skip(1),
            from + units[0].size,
            to,
        )
    }
}

/// How many bytes from `address` on lie in the same page as `address`.
pub open spec fn page_room(address: int) -> int {
    PAGE_SIZE - address % (PAGE_SIZE as int)
}

/// What programming `data` at `address` issues: one page program for each
/// page that the data touches, in ascending order, none crossing a page
/// boundary.
pub open spec fn program_commands(address: int, data: Seq<u8>) -> Seq<WriteFrame>
    decreases data.len(),
{
    if data.len() == 0 {
        Seq::empty()
    } else {
        let n = if page_room(address) < data.len() {
            page_room(address)
        } else {
            data.len() as int
        };
        page_program_commands(address as u32, data.take(n)) + program_commands(
            address + n,
            data.skip(n),
        )
    }
}

/// What writing `piece` at `address` issues when the sector of `address`
/// was read as `image`, and the piece ends in that sector.
///
/// Where the piece can be programmed over what the sector holds, it is. Else
/// the sector is erased and programmed anew as a whole, from the image with
/// the piece laid over it.
pub open spec fn sector_commands(address: int, piece: Seq<u8>, image: Seq<u8>) -> Seq<WriteFrame> {
    let base = sector_base(address);
    let within = address - base;
    if programmable(piece, image.skip(within)) {
        program_commands(address, piece)
    } else {
        erase_unit_commands(OPCODE_ERASE_SECTOR, base as u32) + program_commands(
            base,
            overlaid(image, within, piece),
        )
    }
}

/// First address of the sector that holds `address`.
pub open spec fn sector_base(address: int) -> int {
    address - address % (SECTOR_SIZE as int)
}

/// How many sectors a range of `len` bytes from `offset` touches.
pub open spec fn sectors_spanned(offset: int, len: int) -> int {
    if len == 0 {
        0
    } else {
        (offset + len - 1) / (SECTOR_SIZE as int) - offset / (SECTOR_SIZE as int) + 1
    }
}

/// Where the part of a range from `offset` starts that lies in the `k`-th
/// sector that the range touches, counted from zero.
pub open spec fn piece_start(offset: int, k: int) -> int {
    if k == 0 {
        offset
    } else {
        (offset / (SECTOR_SIZE as int) + k) * SECTOR_SIZE
    }
}

/// Where the part of a range of `len` bytes from `offset` ends that lies
/// in the `k`-th sector that the range touches, counted from zero.
pub open spec fn piece_end(offset: int, len: int, k: int) -> int {
    let boundary = (offset / (SECTOR_SIZE as int) + k + 1) * SECTOR_SIZE;
    if offset + len < boundary {
        offset + len
    } else {
        boundary
    }
}

/// The part of `data`, written at `offset`, that lies in the `k`-th sector
/// that the data touches, counted from zero.
pub open spec fn piece(offset: int, data: Seq<u8>, k: int) -> Seq<u8> {
    data.subrange(
        piece_start(offset, k) - offset,
        piece_end(offset, data.len() as int, k) - offset,
    )
}

/// What writing `data` at `offset` issues for the first `images.len()`
/// sectors that the data touches, in ascending order, where `images` holds
/// what each of them was read as.
pub open spec fn write_commands(offset: int, data: Seq<u8>, images: Seq<Image>) -> Seq<
    WriteFrame,
>
    decreases images.len(),
{
    if images.len() == 0 {
        Seq::empty()
    } else {
        let k = images.len() - 1;
        write_commands(offset, data, images.drop_last()) + sector_commands(
            piece_start(offset, k),
            piece(offset, data, k),
            images.last().data,
        )
    }
}

/// Whether the frame is an erase command.
pub open spec fn is_erase(frame: WriteFrame) -> bool {
    frame.opcode() == Some(OPCODE_ERASE_SECTOR) || frame.opcode() == Some(OPCODE_ERASE_HALF_BLOCK)
        || frame.opcode() == Some(OPCODE_ERASE_BLOCK) || frame.opcode() == Some(
        OPCODE_ERASE_CHIP,
    )
}

/// How many erase commands a sequence of frames holds.
pub open spec fn erases(plan: Seq<WriteFrame>) -> nat
    decreases plan.len(),
{
    if plan.len() == 0 {
        0
    } else {
        erases(plan.drop_last()) + if is_erase(plan.last()) {
            1nat
        } else {
            0nat
        }
    }
}

/// The erase commands of two sequences in a row are those of each.
pub proof fn lemma_erases_add(first: Seq<WriteFrame>, second: Seq<WriteFrame>)
    ensures
        erases(first + second) == erases(first) + erases(second),
    decreases second.len(),
{
    if second.len() == 0 {
        assert(first + second =~= first);
    } else {
        assert((first + second).drop_last() =~= first + second.drop_last());
        lemma_erases_add(first, second.drop_last());
    }
}

/// Programming issues no erase.
pub proof fn lemma_program_erases_nothing(address: int, data: Seq<u8>)
    ensures
        erases(program_commands(address, data)) == 0,
    decreases data.len(),
{
    if data.len() > 0 {
        let n = if page_room(address) < data.len() {
            page_room(address)
        } else {
            data.len() as int
        };
        let head = page_program_commands(address as u32, data.take(n));
        lemma_program_erases_nothing(address + n, data.skip(n));
        lemma_erases_add(head, program_commands(address + n, data.skip(n)));
        lemma_erases_of_pair(head);
    }
}

/// The erase commands of a sequence of two frames.
proof fn lemma_erases_of_pair(pair: Seq<WriteFrame>)
    requires
        pair.len() == 2,
    ensures
        erases(pair) == (if is_erase(pair[0]) {
            1nat
        } else {
            0nat
        }) + (if is_erase(pair[1]) {
            1nat
        } else {
            0nat
        }),
{
    assert(pair.drop_last().drop_last() =~= Seq::<WriteFrame>::empty());
    assert(pair.drop_last().last() == pair[0]);
    reveal_with_fuel(erases, 3);
}

/// Writing into one sector erases it at most once, and exactly where what
/// the sector holds cannot be programmed to the data.
pub proof fn lemma_sector_erased_at_most_once(address: int, piece: Seq<u8>, image: Seq<u8>)
    ensures
        erases(sector_commands(address, piece, image)) == if programmable(
            piece,
            image.skip(address - sector_base(address)),
        ) {
            0nat
        } else {
            1nat
        },
{
    let base = sector_base(address);
    let within = address - base;
    if !programmable(piece, image.skip(within)) {
        let head = erase_unit_commands(OPCODE_ERASE_SECTOR, base as u32);
        let tail = program_commands(base, overlaid(image, within, piece));
        lemma_program_erases_nothing(base, overlaid(image, within, piece));
        lemma_erases_add(head, tail);
        lemma_erases_of_pair(head);
    } else {
        lemma_program_erases_nothing(address, piece);
    }
}

/// A write erases no sector twice: it issues at most one erase for each
/// sector that it has read, and one that touches a single sector issues at
/// most one, decided by what that sector was read as.
pub proof fn lemma_write_erases_each_sector_at_most_once(
    offset: int,
    data: Seq<u8>,
    images: Seq<Image>,
)
    ensures
        erases(write_commands(offset, data, images)) <= images.len(),
        images.len() == 1 ==> erases(write_commands(offset, data, images)) == if programmable(
            piece(offset, data, 0),
            images[0].data.skip(offset - sector_base(offset)),
        ) {
            0nat
        } else {
            1nat
        },
    decreases images.len(),
{
    if images.len() > 0 {
        let k = images.len() - 1;
        let before = write_commands(offset, data, images.drop_last());
        let step = sector_commands(
            piece_start(offset, k),
            piece(offset, data, k),
            images.last().data,
        );
        lemma_write_erases_each_sector_at_most_once(offset, data, images.drop_last());
        lemma_erases_add(before, step);
        lemma_sector_erased_at_most_once(
            piece_start(offset, k),
            piece(offset, data, k),
            images.last().data,
        );
        if images.len() == 1 {
            assert(before =~= Seq::<WriteFrame>::empty());
        }
    }
}

/// What erasing the first unit of a walk and then the rest issues.
pub proof fn lemma_walk_step(from: int, to: int)
    requires
        BASE_ADDRESS <= from < to,
        from < BASE_ADDRESS + MEMORY_SIZE,
    ensures
        walk(from, to) == seq![Unit { start: from, size: unit_size(from, to) }] + walk(
            from + unit_size(from, to),
            to,
        ),
        erase_walk(from, to) == (Unit { start: from, size: unit_size(from, to) }).commands()
            + erase_walk(from + unit_size(from, to), to),
{
    let first = Unit { start: from, size: unit_size(from, to) };
    let rest = walk(from + unit_size(from, to), to);
    assert((seq![first] + rest).skip(1) =~= rest);
}

/// Erasing the whole chip is one chip erase, not a walk over its blocks.
pub proof fn lemma_erase_whole_chip()
    ensures
        erase_commands(BASE_ADDRESS as int, BASE_ADDRESS + MEMORY_SIZE)
            == chip_erase_commands(),
        erases(erase_commands(BASE_ADDRESS as int, BASE_ADDRESS + MEMORY_SIZE)) == 1,
{
    lemma_erases_of_pair(chip_erase_commands());
}

/// Erasing exactly one block is one block erase.
pub proof fn lemma_erase_one_block(block: int)
    requires
        0 <= block,
        BASE_ADDRESS + block * BLOCK_SIZE + BLOCK_SIZE <= BASE_ADDRESS + MEMORY_SIZE,
    ensures
        ({
            let from = BASE_ADDRESS + block * BLOCK_SIZE;
            &&& erase_commands(from, from + BLOCK_SIZE) == erase_unit_commands(
                OPCODE_ERASE_BLOCK,
                from as u32,
            )
            &&& erases(erase_commands(from, from + BLOCK_SIZE)) == 1
        }),
{
    let from = BASE_ADDRESS + block * BLOCK_SIZE;
    let to = from + BLOCK_SIZE;
    lemma_walk_step(from, to);
    assert(erase_walk(to, to) =~= Seq::<WriteFrame>::empty());
    assert(erase_walk(from, to) =~= erase_unit_commands(OPCODE_ERASE_BLOCK, from as u32));
    lemma_erases_of_pair(erase_unit_commands(OPCODE_ERASE_BLOCK, from as u32));
}

/// Erasing the second half of a block, the next block and the first half
/// of the block after it is a half block erase, a block erase and a half
/// block erase, in that order.
pub proof fn lemma_erase_half_block_half(block: int)
    requires
        0 <= block,
        BASE_ADDRESS + block * BLOCK_SIZE + 3 * BLOCK_SIZE <= BASE_ADDRESS + MEMORY_SIZE,
    ensures
        ({
            let from = BASE_ADDRESS + block * BLOCK_SIZE + HALFBLOCK_SIZE;
            erase_commands(from, from + HALFBLOCK_SIZE + BLOCK_SIZE + HALFBLOCK_SIZE)
                == erase_unit_commands(OPCODE_ERASE_HALF_BLOCK, from as u32) + erase_unit_commands(
                OPCODE_ERASE_BLOCK,
                (from + HALFBLOCK_SIZE) as u32,
            ) + erase_unit_commands(
                OPCODE_ERASE_HALF_BLOCK,
                (from + HALFBLOCK_SIZE + BLOCK_SIZE) as u32,
            )
        }),
{
    let from = BASE_ADDRESS + block * BLOCK_SIZE + HALFBLOCK_SIZE;
    let to = from + HALFBLOCK_SIZE + BLOCK_SIZE + HALFBLOCK_SIZE;
    lemma_walk_step(from, to);
    lemma_walk_step(from + HALFBLOCK_SIZE, to);
    lemma_walk_step(from + HALFBLOCK_SIZE + BLOCK_SIZE, to);
    assert(erase_walk(to, to) =~= Seq::<WriteFrame>::empty());
    assert(erase_walk(from, to) =~= erase_unit_commands(OPCODE_ERASE_HALF_BLOCK, from as u32)
        + erase_unit_commands(OPCODE_ERASE_BLOCK, (from + HALFBLOCK_SIZE) as u32)
        + erase_unit_commands(
        OPCODE_ERASE_HALF_BLOCK,
        (from + HALFBLOCK_SIZE + BLOCK_SIZE) as u32,
    ));
}

/// Erasing the last sector of the first half of a block, the second half
/// of that block and the next block is a sector erase, a half block erase
/// and a block erase, in that order.
pub proof fn lemma_erase_sector_half_block(block: int)
    requires
        0 <= block,
        BASE_ADDRESS + block * BLOCK_SIZE + 2 * BLOCK_SIZE <= BASE_ADDRESS + MEMORY_SIZE,
    ensures
        ({
            let from = BASE_ADDRESS + block * BLOCK_SIZE + HALFBLOCK_SIZE - SECTOR_SIZE;
            erase_commands(from, from + SECTOR_SIZE + HALFBLOCK_SIZE + BLOCK_SIZE)
                == erase_unit_commands(OPCODE_ERASE_SECTOR, from as u32) + erase_unit_commands(
                OPCODE_ERASE_HALF_BLOCK,
                (from + SECTOR_SIZE) as u32,
            ) + erase_unit_commands(
                OPCODE_ERASE_BLOCK,
                (from + SECTOR_SIZE + HALFBLOCK_SIZE) as u32,
            )
        }),
{
    let from = BASE_ADDRESS + block * BLOCK_SIZE + HALFBLOCK_SIZE - SECTOR_SIZE;
    let to = from + SECTOR_SIZE + HALFBLOCK_SIZE + BLOCK_SIZE;
    lemma_walk_step(from, to);
    lemma_walk_step(from + SECTOR_SIZE, to);
    lemma_walk_step(from + SECTOR_SIZE + HALFBLOCK_SIZE, to);
    assert(erase_walk(to, to) =~= Seq::<WriteFrame>::empty());
    assert(erase_walk(from, to) =~= erase_unit_commands(OPCODE_ERASE_SECTOR, from as u32)
        + erase_unit_commands(OPCODE_ERASE_HALF_BLOCK, (from + SECTOR_SIZE) as u32)
        + erase_unit_commands(
        OPCODE_ERASE_BLOCK,
        (from + SECTOR_SIZE + HALFBLOCK_SIZE) as u32,
    ));
}

/// The walk over a range whose bounds lie on sector boundaries of the chip
/// takes units that follow one another from the one bound to the other: it
/// erases the range, all of it and nothing else.
pub proof fn lemma_walk_covers_the_range(from: int, to: int)
    requires
        BASE_ADDRESS <= from <= to <= BASE_ADDRESS + MEMORY_SIZE,
        (from - BASE_ADDRESS) % (SECTOR_SIZE as int) == 0,
        (to - BASE_ADDRESS) % (SECTOR_SIZE as int) == 0,
    ensures
        covers(walk(from, to), from, to),
    decreases to - from,
{
    if from < to {
        let first = Unit { start: from, size: unit_size(from, to) };
        let rest = walk(from + unit_size(from, to), to);
        lemma_walk_step(from, to);
        lemma_walk_covers_the_range(from + unit_size(from, to), to);
        assert((seq![first] + rest).skip(1) =~= rest);
    }
}

/// Units that follow one another from `from` to `to` reach, one by one,
/// every boundary of a larger unit on their way: some of the first of them
/// end exactly at `boundary`.
proof fn lemma_cover_reaches(units: Seq<Unit>, from: int, to: int, boundary: int, size: int)
    requires
        covers(units, from, to),
        size == SECTOR_SIZE || size == HALFBLOCK_SIZE || size == BLOCK_SIZE,
        (boundary - BASE_ADDRESS) % size == 0,
        boundary - size <= from < boundary <= to,
        from == boundary - size ==> units.len() > 0 && units[0].size <= size,
    ensures
        exists|taken: int| 1 <= taken <= units.len() && covers(units.skip(taken), boundary, to),
    decreases units.len(),
{
    lemma_cover_goes_up(units, from, to);
    let first = units[0];
    lemma_unit_ends_before(first, boundary, size);
    if first.start + first.size == boundary {
        assert(covers(units.skip(1), boundary, to));
    } else {
        lemma_cover_reaches(units.skip(1), from + first.size, to, boundary, size);
        let taken = choose|taken: int|
            1 <= taken <= units.skip(1).len() && covers(units.skip(1).skip(taken), boundary, to);
        assert(units.skip(1).skip(taken) =~= units.skip(taken + 1));
        assert(covers(units.skip(taken + 1), boundary, to));
    }
}

/// A unit that starts below a boundary of a unit of `size` bytes, and less
/// than `size` bytes below it unless it is no larger itself, ends at or
/// before that boundary: units do not straddle the boundaries of units.
proof fn lemma_unit_ends_before(unit: Unit, boundary: int, size: int)
    requires
        unit.valid(),
        size == SECTOR_SIZE || size == HALFBLOCK_SIZE || size == BLOCK_SIZE,
        (boundary - BASE_ADDRESS) % size == 0,
        boundary - size <= unit.start < boundary,
        unit.start == boundary - size ==> unit.size <= size,
    ensures
        unit.start + unit.size <= boundary,
{
    let start = unit.start - BASE_ADDRESS;
    let limit = boundary - BASE_ADDRESS;
    lemma_multiples(start);
    lemma_multiples(limit);
    if unit.size <= size {
        assert(limit % unit.size == 0);
        assert(start % unit.size == 0);
        lemma_next_multiple(start, limit, unit.size);
    } else {
        assert(start % size == 0);
        assert(limit % size == 0);
        lemma_next_multiple(start, limit, size);
    }
}

/// A multiple of the size of a unit is a multiple of the size of every
/// smaller unit.
proof fn lemma_multiples(x: int)
    ensures
        x % (BLOCK_SIZE as int) == 0 ==> x % (HALFBLOCK_SIZE as int) == 0,
        x % (HALFBLOCK_SIZE as int) == 0 ==> x % (SECTOR_SIZE as int) == 0,
{
    if x % (BLOCK_SIZE as int) == 0 {
        assert(x == 65536 * (x / 65536));
        assert(x == 32768 * (2 * (x / 65536)));
        vstd::arithmetic::div_mod::lemma_mod_multiples_basic(2 * (x / 65536), 32768);
    }
    if x % (HALFBLOCK_SIZE as int) == 0 {
        assert(x == 32768 * (x / 32768));
        assert(x == 4096 * (8 * (x / 32768)));
        vstd::arithmetic::div_mod::lemma_mod_multiples_basic(8 * (x / 32768), 4096);
    }
}

/// Of two multiples of `size`, the larger is at least `size` above the
/// smaller.
proof fn lemma_next_multiple(low: int, high: int, size: int)
    requires
        size > 0,
        low % size == 0,
        high % size == 0,
        low < high,
    ensures
        low + size <= high,
{
    vstd::arithmetic::div_mod::lemma_fundamental_div_mod(low, size);
    vstd::arithmetic::div_mod::lemma_fundamental_div_mod(high, size);
    let a = low / size;
    let b = high / size;
    assert(low == size * a);
    assert(high == size * b);
    assert(a < b) by (nonlinear_arith)
        requires
            size * a < size * b,
            size > 0,
    ;
    assert(size * a + size <= size * b) by (nonlinear_arith)
        requires
            a + 1 <= b,
            size > 0,
    ;
}

/// Units that follow one another from `from` to `to` go upward: `from` is
/// not beyond `to`, and there are units where it is below.
proof fn lemma_cover_goes_up(units: Seq<Unit>, from: int, to: int)
    requires
        covers(units, from, to),
    ensures
        from <= to,
        from < to ==> units.len() > 0,
        units.len() > 0 ==> from < to,
    decreases units.len(),
{
    if units.len() > 0 {
        lemma_cover_goes_up(units.skip(1), from + units[0].size, to);
    }
}

/// No way of erasing a range on the chip unit by unit takes fewer units
/// than the walk does.
pub proof fn lemma_walk_is_shortest(units: Seq<Unit>, from: int, to: int)
    requires
        covers(units, from, to),
        to <= BASE_ADDRESS + MEMORY_SIZE,
    ensures
        walk(from, to).len() <= units.len(),
        erase_walk(from, to).len() <= 2 * units.len(),
    decreases units.len(),
{
    lemma_cover_goes_up(units, from, to);
    if units.len() > 0 {
        let size = unit_size(from, to);
        lemma_cover_goes_up(units.skip(1), from + units[0].size, to);
        lemma_multiples(from - BASE_ADDRESS);
        lemma_walk_step(from, to);
        lemma_cover_reaches(units, from, to, from + size, size);
        let taken = choose|taken: int|
            1 <= taken <= units.len() && covers(units.skip(taken), from + size, to);
        lemma_walk_is_shortest(units.skip(taken), from + size, to);
    }
    lemma_unit_commands_len(walk(from, to));
}

/// Erasing a unit takes two commands.
pub proof fn lemma_unit_commands_len(units: Seq<Unit>)
    ensures
        unit_commands(units).len() == 2 * units.len(),
        erases(unit_commands(units)) == units.len(),
    decreases units.len(),
{
    if units.len() > 0 {
        lemma_unit_commands_len(units.skip(1));
        lemma_erases_add(units[0].commands(), unit_commands(units.skip(1)));
        lemma_erases_of_pair(units[0].commands());
    }
}

/// A write adds at most one erase for each sector that it touches to
/// what the bus has seen, however far it gets.
pub proof fn lemma_write_erases_at_most_its_sectors(
    then: Seq<Transaction>,
    now: Seq<Transaction>,
    offset: int,
    data: Seq<u8>,
    fresh: Seq<Image>,
)
    requires
        issued_within(then, now, write_commands(offset, data, fresh)),
        fresh.len() <= sectors_spanned(offset, data.len() as int),
    ensures
        erases(written(now)) <= erases(written(then)) + fresh.len(),
        erases(written(now)) <= erases(written(then)) + sectors_spanned(
            offset,
            data.len() as int,
        ),
{
    let plan = write_commands(offset, data, fresh);
    let before = written(then);
    let after = written(now);
    let done = plan.take(after.len() - before.len());
    let left = plan.skip(after.len() - before.len());
    assert(after =~= before + done);
    assert(plan =~= done + left);
    lemma_erases_add(before, done);
    lemma_erases_add(done, left);
    lemma_write_erases_each_sector_at_most_once(offset, data, fresh);
}

/// Where the pieces of a write lie: the piece that starts where `done`
/// bytes are written ends with its sector or with the data, and the next
/// piece, if there is one, starts where it ends.
pub proof fn lemma_piece_bounds(offset: int, data: Seq<u8>, done: int, k: int, n: int)
    requires
        0 <= offset,
        0 <= k < sectors_spanned(offset, data.len() as int),
        0 <= done < data.len(),
        offset + done == piece_start(offset, k),
        n == if sector_base(offset + done) + SECTOR_SIZE - (offset + done) < data.len() - done {
            sector_base(offset + done) + SECTOR_SIZE - (offset + done)
        } else {
            data.len() - done
        },
    ensures
        0 < n <= data.len() - done,
        piece_end(offset, data.len() as int, k) == offset + done + n,
        data.subrange(done, done + n) == piece(offset, data, k),
        done + n < data.len() ==> offset + done + n == piece_start(offset, k + 1) && k + 1
            < sectors_spanned(offset, data.len() as int),
        done + n == data.len() ==> k + 1 == sectors_spanned(offset, data.len() as int),
{
    let at = offset + done;
    assert(at / (SECTOR_SIZE as int) == offset / (SECTOR_SIZE as int) + k);
    assert(piece_end(offset, data.len() as int, k) == at + n);
    assert(data.subrange(done, done + n) =~= piece(offset, data, k));
}

/// The largest unit that fits between two sector boundaries is a sector,
/// a half block or a block, ends at or before the second, and ends on a
/// sector boundary.
pub proof fn lemma_unit_fits(from: int, to: int)
    requires
        BASE_ADDRESS <= from < to,
        (from - BASE_ADDRESS) % (SECTOR_SIZE as int) == 0,
        (to - BASE_ADDRESS) % (SECTOR_SIZE as int) == 0,
    ensures
        unit_size(from, to) == SECTOR_SIZE || unit_size(from, to) == HALFBLOCK_SIZE || unit_size(
            from,
            to,
        ) == BLOCK_SIZE,
        from + unit_size(from, to) <= to,
        (from + unit_size(from, to) - BASE_ADDRESS) % (SECTOR_SIZE as int) == 0,
        from < BASE_ADDRESS + MEMORY_SIZE ==> from + unit_size(from, to) <= BASE_ADDRESS
            + MEMORY_SIZE,
{
    let low = from - BASE_ADDRESS;
    if from < BASE_ADDRESS + MEMORY_SIZE {
        lemma_next_multiple(low, MEMORY_SIZE as int, unit_size(from, to));
    }
    lemma_next_multiple(low, to - BASE_ADDRESS, SECTOR_SIZE as int);
    vstd::arithmetic::div_mod::lemma_fundamental_div_mod(low, SECTOR_SIZE as int);
    let q = low / (SECTOR_SIZE as int);
    assert(low == 4096 * q);
    assert(low + 4096 == 4096 * (q + 1));
    assert(low + 32768 == 4096 * (q + 8));
    assert(low + 65536 == 4096 * (q + 16));
    vstd::arithmetic::div_mod::lemma_mod_multiples_basic(q + 1, 4096);
    vstd::arithmetic::div_mod::lemma_mod_multiples_basic(q + 8, 4096);
    vstd::arithmetic::div_mod::lemma_mod_multiples_basic(q + 16, 4096);
}

} // verus!
