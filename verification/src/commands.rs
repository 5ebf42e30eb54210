//! The commands of the chip, as templates of bus transactions.
//!
//! A command is one byte of opcode, then an address where the command takes
//! one, then idle clock cycles where the chip needs them to fetch, then data
//! where the command carries any. Each phase says on how many lines it runs.
//! The templates are made anew on every call, and a driver fills in the
//! address, the length or the payload of the transaction at hand.

use vstd::prelude::*;

verus! {

/// On how many lines a phase of a transaction runs.
#[derive(Clone, Copy, Debug, PartialEq, Eq, Structural)]
pub enum QspiMode {
    SingleChannel,
    DualChannel,
    QuadChannel,
}

/// A transaction that sends data to the chip.
#[derive(Clone, Copy, Debug)]
pub struct QspiWriteCommand<'a> {
    pub instruction: Option<(u8, QspiMode)>,
    pub address: Option<(u32, QspiMode)>,
    pub dummy_cycles: u8,
    pub data: Option<(&'a [u8], QspiMode)>,
}

/// A transaction that receives data from the chip.
#[derive(Clone, Copy, Debug, PartialEq, Eq)]
pub struct QspiReadCommand {
    pub instruction: Option<(u8, QspiMode)>,
    pub address: Option<(u32, QspiMode)>,
    pub dummy_cycles: u8,
    pub data_mode: QspiMode,
    pub receive_length: u32,
}

/// What a write transaction puts on the bus: a `QspiWriteCommand` with its
/// payload by value.
pub struct WriteFrame {
    pub instruction: Option<(u8, QspiMode)>,
    pub address: Option<(u32, QspiMode)>,
    pub dummy_cycles: u8,
    pub data: Option<(Seq<u8>, QspiMode)>,
}

impl WriteFrame {
    /// A command of one opcode on a single line, without address or data.
    pub open spec fn bare(opcode: u8) -> WriteFrame {
        WriteFrame {
            instruction: Some((opcode, QspiMode::SingleChannel)),
            address: None,
            dummy_cycles: 0,
            data: None,
        }
    }

    /// The same frame with the given address phase.
    pub open spec fn with_address(self, addr: u32, mode: QspiMode) -> WriteFrame {
        WriteFrame { address: Some((addr, mode)), ..self }
    }

    /// The same frame with the given data phase.
    pub open spec fn with_data(self, bytes: Seq<u8>, mode: QspiMode) -> WriteFrame {
        WriteFrame { data: Some((bytes, mode)), ..self }
    }

    /// The opcode of the frame, if it has one.
    pub open spec fn opcode(self) -> Option<u8> {
        match self.instruction {
            Some((opcode, _)) => Some(opcode),
            None => None,
        }
    }
}

impl<'a> View for QspiWriteCommand<'a> {
    type V = WriteFrame;

    open spec fn view(&self) -> WriteFrame {
        WriteFrame {
            instruction: self.instruction,
            address: self.address,
            dummy_cycles: self.dummy_cycles,
            data: match self.data {
                Some((bytes, mode)) => Some((bytes@, mode)),
                None => None,
            },
        }
    }
}

impl<'a> QspiWriteCommand<'a> {
    /// The same command, addressed at `addr`, with the address sent in `mode`.
    pub fn address(self, addr: u32, mode: QspiMode) -> (cmd: Self)
        ensures
            cmd@ == self@.with_address(addr, mode),
    {
        QspiWriteCommand {
            instruction: self.instruction,
            address: Some((addr, mode)),
            dummy_cycles: self.dummy_cycles,
            data: self.data,
        }
    }

    /// The same command, carrying `bytes`, with the data sent in `mode`.
    pub fn data(self, bytes: &'a [u8], mode: QspiMode) -> (cmd: Self)
        ensures
            cmd@ == self@.with_data(bytes@, mode),
    {
        QspiWriteCommand {
            instruction: self.instruction,
            address: self.address,
            dummy_cycles: self.dummy_cycles,
            data: Some((bytes, mode)),
        }
    }
}

impl QspiReadCommand {
    /// The same command with the given address phase.
    pub open spec fn with_address(self, addr: u32, mode: QspiMode) -> QspiReadCommand {
        QspiReadCommand { address: Some((addr, mode)), ..self }
    }

    /// The same command, set to receive `length` bytes.
    pub open spec fn with_receive_length(self, length: u32) -> QspiReadCommand {
        QspiReadCommand { receive_length: length, ..self }
    }

    /// The same command, addressed at `addr`, with the address sent in `mode`.
    pub fn address(self, addr: u32, mode: QspiMode) -> (cmd: Self)
        ensures
            cmd == self.with_address(addr, mode),
    {
        QspiReadCommand {
            instruction: self.instruction,
            address: Some((addr, mode)),
            dummy_cycles: self.dummy_cycles,
            data_mode: self.data_mode,
            receive_length: self.receive_length,
        }
    }

    /// The same command, set to receive `length` bytes.
    pub fn receive_length(self, length: u32) -> (cmd: Self)
        ensures
            cmd == self.with_receive_length(length),
    {
        QspiReadCommand {
            instruction: self.instruction,
            address: self.address,
            dummy_cycles: self.dummy_cycles,
            data_mode: self.data_mode,
            receive_length: length,
        }
    }
}

pub const OPCODE_WRITE_STATUS: u8 = 0x01;

pub const OPCODE_WRITE: u8 = 0x02;

pub const OPCODE_GET_STATUS: u8 = 0x05;

pub const OPCODE_WRITE_ENABLE: u8 = 0x06;

pub const OPCODE_READ: u8 = 0x0b;

pub const OPCODE_QUAD_WRITE: u8 = 0x32;

pub const OPCODE_QPI_ENABLE: u8 = 0x35;

pub const OPCODE_ERASE_HALF_BLOCK: u8 = 0x52;

pub const OPCODE_ERASE_CHIP: u8 = 0xC7;

pub const OPCODE_ERASE_SECTOR: u8 = 0xD7;

pub const OPCODE_ERASE_BLOCK: u8 = 0xD8;

pub const OPCODE_QUAD_READ: u8 = 0xEB;

/// Frame of the template of a command that takes an address: the address
/// phase stands for the one that a call fills in.
pub open spec fn addressed(opcode: u8, placeholder: u32) -> WriteFrame {
    WriteFrame::bare(opcode).with_address(placeholder, QspiMode::SingleChannel)
}

/// Frame of the quad page program template: its address phase and its data
/// phase stand for those that a call fills in.
pub open spec fn quad_write_frame() -> WriteFrame {
    addressed(OPCODE_QUAD_WRITE, 0x8).with_data(seq![0u8], QspiMode::QuadChannel)
}

/// The status poll: one byte of status, on a single line.
pub open spec fn status_poll() -> QspiReadCommand {
    QspiReadCommand {
        instruction: Some((OPCODE_GET_STATUS, QspiMode::SingleChannel)),
        address: None,
        dummy_cycles: 0,
        data_mode: QspiMode::SingleChannel,
        receive_length: 1,
    }
}

/// The template of the read with address and data on four lines, after six
/// idle cycles.
pub open spec fn quad_read_template() -> QspiReadCommand {
    QspiReadCommand {
        instruction: Some((OPCODE_QUAD_READ, QspiMode::SingleChannel)),
        address: Some((0x0, QspiMode::QuadChannel)),
        dummy_cycles: 6,
        data_mode: QspiMode::QuadChannel,
        receive_length: 0,
    }
}

/// Switch the chip to taking commands on four lines.
pub fn qpi_enable() -> (cmd: QspiWriteCommand<'static>)
    ensures
        cmd@ == WriteFrame::bare(OPCODE_QPI_ENABLE),
{
    QspiWriteCommand {
        instruction: Some((OPCODE_QPI_ENABLE, QspiMode::SingleChannel)),
        address: None,
        dummy_cycles: 0,
        data: None,
    }
}

/// Write the status register. A call adds the byte to write.
pub fn write_status() -> (cmd: QspiWriteCommand<'static>)
    ensures
        cmd@ == WriteFrame::bare(OPCODE_WRITE_STATUS),
{
    QspiWriteCommand {
        instruction: Some((OPCODE_WRITE_STATUS, QspiMode::SingleChannel)),
        address: None,
        dummy_cycles: 0,
        data: None,
    }
}

/// Set the write enable latch, which every program and erase command needs.
pub fn write_enable() -> (cmd: QspiWriteCommand<'static>)
    ensures
        cmd@ == WriteFrame::bare(OPCODE_WRITE_ENABLE),
{
    QspiWriteCommand {
        instruction: Some((OPCODE_WRITE_ENABLE, QspiMode::SingleChannel)),
        address: None,
        dummy_cycles: 0,
        data: None,
    }
}

/// Read the status register: one byte.
pub fn get_status() -> (cmd: QspiReadCommand)
    ensures
        cmd == status_poll(),
{
    QspiReadCommand {
        instruction: Some((OPCODE_GET_STATUS, QspiMode::SingleChannel)),
        address: None,
        dummy_cycles: 0,
        data_mode: QspiMode::SingleChannel,
        receive_length: 1,
    }
}

/// Page program with the data on a single line. A call fills in the address
/// and adds the data.
pub fn write() -> (cmd: QspiWriteCommand<'static>)
    ensures
        cmd@ == addressed(OPCODE_WRITE, 0x8),
{
    QspiWriteCommand {
        instruction: Some((OPCODE_WRITE, QspiMode::SingleChannel)),
        address: Some((0x8, QspiMode::SingleChannel)),
        dummy_cycles: 0,
        data: None,
    }
}

/// Page program with the data on four lines. A call fills in the address and
/// the data.
pub fn quad_write() -> (cmd: QspiWriteCommand<'static>)
    ensures
        cmd@ == quad_write_frame(),
{
    let filler: &'static [u8] = &[0u8];
    assert(filler@ =~= seq![0u8]);
    QspiWriteCommand {
        instruction: Some((OPCODE_QUAD_WRITE, QspiMode::SingleChannel)),
        address: Some((0x8, QspiMode::SingleChannel)),
        dummy_cycles: 0,
        data: Some((filler, QspiMode::QuadChannel)),
    }
}

/// Read on a single line, after eight idle cycles. A call fills in the
/// address and the length.
pub fn read() -> (cmd: QspiReadCommand)
    ensures
        cmd.instruction == Some((OPCODE_READ, QspiMode::SingleChannel)),
        cmd.address == Some((0x6u32, QspiMode::SingleChannel)),
        cmd.dummy_cycles == 8,
        cmd.data_mode == QspiMode::SingleChannel,
        cmd.receive_length == 0,
{
    QspiReadCommand {
        instruction: Some((OPCODE_READ, QspiMode::SingleChannel)),
        address: Some((0x6, QspiMode::SingleChannel)),
        dummy_cycles: 8,
        data_mode: QspiMode::SingleChannel,
        receive_length: 0,
    }
}

/// Read with address and data on four lines, after six idle cycles. A call
/// fills in the address and the length.
pub fn quad_read() -> (cmd: QspiReadCommand)
    ensures
        cmd == quad_read_template(),
{
    QspiReadCommand {
        instruction: Some((OPCODE_QUAD_READ, QspiMode::SingleChannel)),
        address: Some((0x0, QspiMode::QuadChannel)),
        dummy_cycles: 6,
        data_mode: QspiMode::QuadChannel,
        receive_length: 0,
    }
}

/// Erase the whole chip.
pub fn erase_chip() -> (cmd: QspiWriteCommand<'static>)
    ensures
        cmd@ == WriteFrame::bare(OPCODE_ERASE_CHIP),
{
    QspiWriteCommand {
        instruction: Some((OPCODE_ERASE_CHIP, QspiMode::SingleChannel)),
        address: None,
        dummy_cycles: 0,
        data: None,
    }
}

/// Erase one block. A call fills in the address.
pub fn erase_block() -> (cmd: QspiWriteCommand<'static>)
    ensures
        cmd@ == addressed(OPCODE_ERASE_BLOCK, 0),
{
    QspiWriteCommand {
        instruction: Some((OPCODE_ERASE_BLOCK, QspiMode::SingleChannel)),
        address: Some((0, QspiMode::SingleChannel)),
        dummy_cycles: 0,
        data: None,
    }
}

/// Erase one half block. A call fills in the address.
pub fn erase_half_block() -> (cmd: QspiWriteCommand<'static>)
    ensures
        cmd@ == addressed(OPCODE_ERASE_HALF_BLOCK, 0),
{
    QspiWriteCommand {
        instruction: Some((OPCODE_ERASE_HALF_BLOCK, QspiMode::SingleChannel)),
        address: Some((0, QspiMode::SingleChannel)),
        dummy_cycles: 0,
        data: None,
    }
}

/// Erase one sector. A call fills in the address.
pub fn erase_sector() -> (cmd: QspiWriteCommand<'static>)
    ensures
        cmd@ == addressed(OPCODE_ERASE_SECTOR, 0),
{
    QspiWriteCommand {
        instruction: Some((OPCODE_ERASE_SECTOR, QspiMode::SingleChannel)),
        address: Some((0, QspiMode::SingleChannel)),
        dummy_cycles: 0,
        data: None,
    }
}

/// Filling in a template changes the phase that is filled in and no other,
/// and gives the same frame whatever the phase held before.
pub proof fn lemma_filling_in_keeps_the_rest(
    frame: WriteFrame,
    addr: u32,
    mode: QspiMode,
    bytes: Seq<u8>,
)
    ensures
        frame.with_address(addr, mode).instruction == frame.instruction,
        frame.with_address(addr, mode).dummy_cycles == frame.dummy_cycles,
        frame.with_address(addr, mode).data == frame.data,
        frame.with_address(addr, mode).address == Some((addr, mode)),
        frame.with_data(bytes, mode).instruction == frame.instruction,
        frame.with_data(bytes, mode).dummy_cycles == frame.dummy_cycles,
        frame.with_data(bytes, mode).address == frame.address,
        frame.with_data(bytes, mode).data == Some((bytes, mode)),
        frame.with_address(0, mode).with_address(addr, mode) == frame.with_address(addr, mode),
        frame.with_data(Seq::empty(), mode).with_data(bytes, mode) == frame.with_data(bytes, mode),
{
}

} // verus!
