//! Driver for the IS25xP family of serial NOR flash chips.
//!
//! The chip programs at most a page at a time and erases at least a sector
//! at a time, and only an erase sets a bit. The driver reads, writes and
//! erases ranges of any size on top of that.

pub mod bus;
pub mod commands;
pub mod flash_params;
pub mod outcomes;
pub mod plan;
pub mod program;
pub mod status;
pub mod steps;
pub mod turns;

pub use bus::Qspi;
pub use commands::{QspiMode, QspiReadCommand, QspiWriteCommand};
pub use flash_params::{
    Block, HalfBlock, MemoryMap, Page, Sector, BASE_ADDRESS, BLOCK_SIZE, HALFBLOCK_SIZE,
    MEMORY_SIZE, PAGE_SIZE, SECTOR_SIZE,
};

use bus::{
    ended, fault_of, images, lemma_all_is_within, lemma_commands_chain, lemma_ended_chain,
    lemma_ended_nothing, lemma_ended_other, lemma_ended_step, lemma_issued_chain,
    lemma_issued_widen, lemma_push, written, Image, Transaction,
};
use commands::{status_poll, WriteFrame};
use outcomes::{
    commanded, erased, lemma_commanded_is_orderly, next_unit_commands, outcome, programmed, ran,
    read_of, sector_in_turn, stored, stored_each, stored_in_turn, stored_sector, streamed,
};
use plan::{
    enable_quad, erase_unit_commands, page_program_commands, program_commands, sector_commands,
};
use program::{is_subset_of, overlay};
use status::{Status, QE};
use steps::{
    erasing, lemma_erasing_ends, lemma_erasing_starts, lemma_erasing_step,
    lemma_programming_ends, lemma_programming_starts, lemma_programming_step,
    lemma_sector_read, lemma_sector_unread, lemma_stored_each_step, lemma_stored_nothing,
    lemma_storing_ends, lemma_storing_starts, lemma_storing_step, programming, storing,
};
use turns::{
    commanded_each, commanded_in_turn, lemma_in_turn_chain, lemma_in_turn_step,
    lemma_none_in_turn, lemma_one_in_turn,
};
use vstd::prelude::*;

verus! {

/// Why an operation of the driver failed.
#[derive(Debug)]
pub enum Error {
    /// The chip was still programming or erasing.
    Busy,
    /// The bus reported a fault.
    Qspi,
    /// An address lies beyond the end of the chip.
    OutOfBounds,
    /// A bound of an erase does not lie on a sector boundary.
    Alignment,
    /// The data is longer than one page.
    Size,
}

/// How often the driver reads the status register of a busy chip in a row
/// before it gives up. No chip stays busy that long: at a million readings
/// a second this is half a million years.
pub const POLL_LIMIT: u64 = u64::MAX;

/// The driver of one chip. It owns the bus to the chip and keeps nothing of
/// the chip: it asks the chip for its status whenever it needs to know it.
/// For its contracts it keeps, as ghost state, the record of what it handed
/// to the bus.
pub struct IS25xP<Q> {
    qspi: Q,
    record: Ghost<Seq<Transaction>>,
}

impl<Q: Qspi> IS25xP<Q> {
    /// Every transaction that the driver has handed to its bus, in order.
    pub closed spec fn history(&self) -> Seq<Transaction> {
        self.record@
    }

    /// The bus that the driver owns.
    pub closed spec fn bus(&self) -> Q {
        self.qspi
    }

    /// The bus of the driver.
    pub fn qspi(&self) -> (bus: &Q)
        ensures
            *bus == self.bus(),
    {
        &self.qspi
    }

    /// Hand a write transaction to the bus.
    fn send(&mut self, cmd: QspiWriteCommand<'_>) -> (r: Result<(), Error>)
        ensures
            final(self).bus() == old(self).bus(),
            final(self).history() == old(self).history().push(
                Transaction::Write { frame: cmd@, accepted: r is Ok },
            ),
            written(final(self).history()) == written(old(self).history()).push(cmd@),
            images(final(self).history()) == images(old(self).history()),
            r is Err ==> r == Err::<(), Error>(Error::Qspi),
    {
        let answer = self.qspi.write(cmd);
        proof {
            lemma_push(
                self.record@,
                Transaction::Write { frame: cmd@, accepted: answer is Ok },
            );
            self.record = Ghost(
                self.record@.push(Transaction::Write { frame: cmd@, accepted: answer is Ok }),
            );
        }
        match answer {
            Ok(()) => Ok(()),
            Err(_) => Err(Error::Qspi),
        }
    }

    /// Hand a read transaction to the bus.
    fn receive(&mut self, cmd: QspiReadCommand, buf: &mut [u8]) -> (r: Result<(), Error>)
        ensures
            final(self).bus() == old(self).bus(),
            final(self).history() == old(self).history().push(
                Transaction::Read { command: cmd, accepted: r is Ok, data: final(buf)@ },
            ),
            written(final(self).history()) == written(old(self).history()),
            r is Err ==> r == Err::<(), Error>(Error::Qspi),
    {
        let answer = self.qspi.transfer(cmd, buf);
        proof {
            lemma_push(
                self.record@,
                Transaction::Read { command: cmd, accepted: answer is Ok, data: buf@ },
            );
            self.record = Ghost(
                self.record@.push(
                    Transaction::Read { command: cmd, accepted: answer is Ok, data: buf@ },
                ),
            );
        }
        match answer {
            Ok(()) => Ok(()),
            Err(_) => Err(Error::Qspi),
        }
    }

    /// Read the status register.
    fn status(&mut self) -> (r: Result<Status, Error>)
        ensures
            final(self).bus() == old(self).bus(),
            final(self).history() == old(self).history().push(final(self).history().last()),
            final(self).history().last().is_poll(),
            written(final(self).history()) == written(old(self).history()),
            images(final(self).history()) == images(old(self).history()),
            match r {
                Ok(status) => final(self).history().last() == (Transaction::Read {
                    command: status_poll(),
                    accepted: true,
                    data: seq![status.0],
                }),
                Err(fault) => fault == Error::Qspi && !final(self).history().last().accepted(),
            },
    {
        let mut sr_arr = [1u8; 1];
        let answer = self.receive(commands::get_status(), &mut sr_arr);
        proof {
            lemma_push(old(self).history(), self.history().last());
            assert(sr_arr@ =~= seq![sr_arr@[0]]);
        }
        match answer {
            Ok(()) => Ok(Status::from(sr_arr[0])),
            Err(fault) => Err(fault),
        }
    }

    /// Read the status register until the chip is idle.
    fn wait_busy(&mut self) -> (r: Result<(), Error>)
        ensures
            final(self).bus() == old(self).bus(),
            ended(old(self).history(), final(self).history(), fault_of(r)),
            final(self).history().len() > old(self).history().len(),
            forall|i: int|
                old(self).history().len() <= i < final(self).history().len() ==> (
                #[trigger] final(self).history()[i]).is_poll(),
            forall|i: int|
                old(self).history().len() <= i < final(self).history().len() - 1 ==> (
                #[trigger] final(self).history()[i]).shows_busy(),
            written(final(self).history()) == written(old(self).history()),
            images(final(self).history()) == images(old(self).history()),
            match r {
                Ok(()) => final(self).history().last().shows_idle(),
                Err(fault) => fault == Error::Qspi || (fault == Error::Busy
                    && final(self).history().len() == old(self).history().len() + POLL_LIMIT),
            },
    {
        let mut polls: u64 = 0;
        while polls < POLL_LIMIT
            invariant
                self.bus() == old(self).bus(),
                old(self).history().is_prefix_of(self.history()),
                self.history().len() == old(self).history().len() + polls,
                forall|i: int|
                    old(self).history().len() <= i < self.history().len() ==> (
                    #[trigger] self.history()[i]).shows_busy(),
                written(self.history()) == written(old(self).history()),
                images(self.history()) == images(old(self).history()),
            decreases POLL_LIMIT - polls,
        {
            let ghost before = self.history();
            let reading = self.status();
            proof {
                let now = self.history();
                assert(old(self).history() =~= now.subrange(0, old(self).history().len() as int))
                    by {
                    assert(old(self).history() =~= before.subrange(
                        0,
                        old(self).history().len() as int,
                    ));
                }
                assert forall|i: int| old(self).history().len() <= i < now.len() - 1 implies (
                #[trigger] now[i]).shows_busy() by {
                    assert(now[i] == before[i]);
                }
            }
            match reading {
                Ok(status) => {
                    if !status.wip() {
                        return Ok(());
                    }
                },
                Err(fault) => {
                    return Err(fault);
                },
            }
            polls = polls + 1;
        }
        Err(Error::Busy)
    }

    /// Read the status register once, and fail if the chip is busy.
    fn ready(&mut self) -> (r: Result<(), Error>)
        ensures
            final(self).bus() == old(self).bus(),
            ended(old(self).history(), final(self).history(), fault_of(r)),
            final(self).history().len() == old(self).history().len() + 1,
            final(self).history().last().is_poll(),
            written(final(self).history()) == written(old(self).history()),
            images(final(self).history()) == images(old(self).history()),
            match r {
                Ok(()) => final(self).history().last().shows_idle(),
                Err(fault) => fault == Error::Qspi || fault == Error::Busy,
            },
    {
        let ghost start = self.history();
        let reading = self.status();
        proof {
            lemma_ended_nothing(start);
            lemma_ended_step(
                start,
                start,
                self.history().last(),
                if !self.history().last().accepted() {
                    Some(Error::Qspi)
                } else if self.history().last().shows_busy() {
                    Some(Error::Busy)
                } else {
                    None
                },
            );
        }
        match reading {
            Ok(status) => {
                if status.wip() {
                    Err(Error::Busy)
                } else {
                    Ok(())
                }
            },
            Err(fault) => Err(fault),
        }
    }

    /// Take over the bus to a chip: wait until the chip is idle, then switch
    /// on its quad output.
    pub fn try_new(qspi: Q) -> (r: Result<Self, Error>)
        ensures
            match r {
                Ok(flash) => {
                    &&& flash.bus() == qspi
                    &&& ended(Seq::empty(), flash.history(), None)
                    &&& written(flash.history()) == seq![enable_quad()]
                    &&& images(flash.history()) == Seq::<Image>::empty()
                    &&& flash.history().len() >= 2
                    &&& flash.history().last() == (Transaction::Write {
                        frame: enable_quad(),
                        accepted: true,
                    })
                    &&& flash.history()[flash.history().len() - 2].shows_idle()
                    &&& forall|i: int|
                        0 <= i < flash.history().len() - 2 ==> (#[trigger] flash.history()[i]).shows_busy()
                },
                Err(fault) => fault == Error::Qspi || fault == Error::Busy,
            },
    {
        let mut flash = IS25xP { qspi, record: Ghost(Seq::empty()) };
        match flash.wait_busy() {
            Ok(()) => {},
            Err(fault) => {
                return Err(fault);
            },
        }
        let ghost waited = flash.history();
        // Set quad enable bit
        let quad_enable = [QE];
        match flash.send(commands::write_status().data(&quad_enable, QspiMode::SingleChannel)) {
            Ok(()) => {},
            Err(fault) => {
                return Err(fault);
            },
        }
        proof {
            assert(quad_enable@ =~= seq![QE]);
            assert(written(Seq::<Transaction>::empty()) =~= Seq::<WriteFrame>::empty());
            assert(images(Seq::<Transaction>::empty()) =~= Seq::<Image>::empty());
            lemma_ended_step(
                Seq::empty(),
                waited,
                Transaction::Write { frame: enable_quad(), accepted: true },
                None,
            );
            assert(written(flash.history()) =~= seq![enable_quad()]);
        }
        Ok(flash)
    }

    /// Read `data.len()` bytes from `offset` on, in one transaction of any
    /// length, once the chip is idle. The command carries the length in 32
    /// bits.
    pub fn read_native(&mut self, offset: u32, data: &mut [u8]) -> (r: Result<(), Error>)
        ensures
            final(self).bus() == old(self).bus(),
            streamed(
                old(self).history(),
                final(self).history(),
                read_of(offset, old(data)@.len()),
                old(data)@,
                final(data)@,
                r,
            ),
    {
        match self.wait_busy() {
            Ok(()) => {},
            Err(fault) => {
                return Err(fault);
            },
        }
        let ghost waited = self.history();
        let length = #[verifier::truncate]
        (data.len() as u32);
        let command = commands::quad_read().address(offset, QspiMode::QuadChannel).receive_length(
            length,
        );
        let answer = self.receive(command, data);
        proof {
            let last = Transaction::Read { command, accepted: answer is Ok, data: data@ };
            lemma_push(waited, last);
            lemma_ended_nothing(waited);
            lemma_ended_step(waited, waited, last, fault_of(answer));
            lemma_ended_chain(old(self).history(), waited, self.history(), fault_of(answer));
            assert forall|i: int|
                old(self).history().len() <= i < self.history().len() - 1 implies (
            #[trigger] self.history()[i]).is_poll() by {
                assert(self.history()[i] == waited[i]);
            }
        }
        answer
    }

    /// After a poll that found the chip idle: set the write enable latch,
    /// send `cmd`, and wait until the chip is idle again.
    fn run(&mut self, cmd: QspiWriteCommand<'_>) -> (r: Result<(), Error>)
        ensures
            final(self).bus() == old(self).bus(),
            ran(
                old(self).history(),
                final(self).history(),
                seq![plan::write_enable_frame(), cmd@],
                r,
            ),
    {
        let ghost start = self.history();
        let ghost both = seq![plan::write_enable_frame(), cmd@];
        proof {
            lemma_ended_nothing(start);
            lemma_issued_widen(start, start, Seq::empty(), both);
            assert(Seq::<WriteFrame>::empty() + both =~= both);
        }
        let enabled = self.send(commands::write_enable());
        let ghost latched = self.history();
        proof {
            lemma_ended_step(start, start, latched.last(), fault_of(enabled));
            assert(written(latched) =~= written(start) + seq![plan::write_enable_frame()]);
            lemma_all_is_within(start, latched, seq![plan::write_enable_frame()]);
            lemma_issued_widen(start, latched, seq![plan::write_enable_frame()], seq![cmd@]);
            assert(seq![plan::write_enable_frame()] + seq![cmd@] =~= both);
        }
        match enabled {
            Ok(()) => {},
            Err(fault) => {
                return Err(fault);
            },
        }
        let sent = self.send(cmd);
        let ghost issued = self.history();
        proof {
            lemma_ended_step(start, latched, issued.last(), fault_of(sent));
            assert(written(issued) =~= written(start) + both);
            lemma_all_is_within(start, issued, both);
        }
        match sent {
            Ok(()) => {},
            Err(fault) => {
                return Err(fault);
            },
        }
        let waited = self.wait_busy();
        proof {
            let now = self.history();
            lemma_ended_chain(start, issued, now, fault_of(waited));
            lemma_all_is_within(start, now, both);
            assert(now[start.len() as int] == issued[start.len() as int]);
            assert(now[start.len() as int + 1] == issued[start.len() as int + 1]);
            assert(issued[start.len() as int] == latched[start.len() as int]);
        }
        waited
    }

    /// Issue `cmd` after a write enable, unless the chip is busy, and wait
    /// until the chip is idle again.
    fn command(&mut self, cmd: QspiWriteCommand<'_>) -> (r: Result<(), Error>)
        ensures
            final(self).bus() == old(self).bus(),
            commanded(
                old(self).history(),
                final(self).history(),
                seq![plan::write_enable_frame(), cmd@],
                r,
            ),
    {
        let ghost start = self.history();
        let ghost both = seq![plan::write_enable_frame(), cmd@];
        let idle = self.ready();
        let ghost polled = self.history();
        proof {
            lemma_all_is_within(start, polled, Seq::empty());
            lemma_issued_widen(start, polled, Seq::empty(), both);
            assert(Seq::<WriteFrame>::empty() + both =~= both);
        }
        match idle {
            Ok(()) => {},
            Err(fault) => {
                return Err(fault);
            },
        }
        let done = self.run(cmd);
        proof {
            lemma_ended_chain(start, polled, self.history(), fault_of(done));
            lemma_issued_chain(start, polled, self.history(), Seq::empty(), both);
            assert(self.history()[start.len() as int] == polled[start.len() as int]);
        }
        done
    }

    /// Program `data` at `offset`, unless the chip is busy. The data must
    /// not be longer than a page; it is sent as it is, in one command, so
    /// the caller keeps it within the page of `offset`.
    pub fn write_page(&mut self, offset: u32, data: &[u8]) -> (r: Result<(), Error>)
        ensures
            final(self).bus() == old(self).bus(),
            data@.len() <= PAGE_SIZE ==> commanded(
                old(self).history(),
                final(self).history(),
                page_program_commands(offset, data@),
                r,
            ),
            data@.len() > PAGE_SIZE ==> {
                &&& ended(old(self).history(), final(self).history(), fault_of(r))
                &&& final(self).history().len() == old(self).history().len() + 1
                &&& final(self).history().last().is_poll()
                &&& written(final(self).history()) == written(old(self).history())
                &&& images(final(self).history()) == images(old(self).history())
                &&& r is Err
                &&& r == Err::<(), Error>(Error::Size) <==> final(self).history().last().shows_idle()
            },
    {
        let ghost start = self.history();
        let ghost both = page_program_commands(offset, data@);
        let idle = self.ready();
        let ghost polled = self.history();
        proof {
            lemma_all_is_within(start, polled, Seq::empty());
            lemma_issued_widen(start, polled, Seq::empty(), both);
            assert(Seq::<WriteFrame>::empty() + both =~= both);
        }
        match idle {
            Ok(()) => {},
            Err(fault) => {
                return Err(fault);
            },
        }
        if data.len() > PAGE_SIZE as usize {
            proof {
                lemma_ended_other(start, polled, Error::Size);
            }
            return Err(Error::Size);
        }
        let done = self.run(
            commands::quad_write().address(offset, QspiMode::SingleChannel).data(
                data,
                QspiMode::QuadChannel,
            ),
        );
        proof {
            lemma_ended_chain(start, polled, self.history(), fault_of(done));
            lemma_issued_chain(start, polled, self.history(), Seq::empty(), both);
            assert(self.history()[start.len() as int] == polled[start.len() as int]);
        }
        done
    }

    /// Erase `sector`, unless the chip is busy.
    pub fn erase_sector(&mut self, sector: &Sector) -> (r: Result<(), Error>)
        ensures
            final(self).bus() == old(self).bus(),
            commanded(
                old(self).history(),
                final(self).history(),
                erase_unit_commands(commands::OPCODE_ERASE_SECTOR, sector.first() as u32),
                r,
            ),
    {
        self.command(commands::erase_sector().address(sector.start(), QspiMode::SingleChannel))
    }

    /// Erase `half_block`, unless the chip is busy.
    pub fn erase_halfblock(&mut self, half_block: &HalfBlock) -> (r: Result<(), Error>)
        ensures
            final(self).bus() == old(self).bus(),
            commanded(
                old(self).history(),
                final(self).history(),
                erase_unit_commands(commands::OPCODE_ERASE_HALF_BLOCK, half_block.first() as u32),
                r,
            ),
    {
        self.command(
            commands::erase_half_block().address(half_block.start(), QspiMode::SingleChannel),
        )
    }

    /// Erase `block`, unless the chip is busy.
    pub fn erase_block(&mut self, block: &Block) -> (r: Result<(), Error>)
        ensures
            final(self).bus() == old(self).bus(),
            commanded(
                old(self).history(),
                final(self).history(),
                erase_unit_commands(commands::OPCODE_ERASE_BLOCK, block.first() as u32),
                r,
            ),
    {
        self.command(commands::erase_block().address(block.start(), QspiMode::SingleChannel))
    }

    /// Erase the whole chip, unless the chip is busy.
    pub fn erase_chip(&mut self) -> (r: Result<(), Error>)
        ensures
            final(self).bus() == old(self).bus(),
            commanded(
                old(self).history(),
                final(self).history(),
                plan::chip_erase_commands(),
                r,
            ),
    {
        self.command(commands::erase_chip())
    }

    /// Capacity of the chip in bytes.
    pub fn capacity(&self) -> (bytes: usize)
        ensures
            bytes == MEMORY_SIZE,
            bytes == 16_777_216,
    {
        MemoryMap::size()
    }

    /// Read `bytes.len()` bytes from `offset` on, unless `offset` lies
    /// beyond the end of the chip. The chip streams a read of any length,
    /// so this is one transaction.
    pub fn read(&mut self, offset: u32, bytes: &mut [u8]) -> (r: Result<(), Error>)
        ensures
            final(self).bus() == old(self).bus(),
            offset > MEMORY_SIZE <==> r == Err::<(), Error>(Error::OutOfBounds),
            offset > MEMORY_SIZE ==> final(self).history() == old(self).history() && final(bytes)@
                == old(bytes)@,
            offset <= MEMORY_SIZE ==> streamed(
                old(self).history(),
                final(self).history(),
                read_of(offset, old(bytes)@.len()),
                old(bytes)@,
                final(bytes)@,
                r,
            ),
    {
        if offset > MEMORY_SIZE {
            return Err(Error::OutOfBounds);
        }
        self.read_native(offset, bytes)
    }

    /// Program `data` at `address`, page by page in ascending order, so
    /// that no command crosses a page boundary.
    fn program(&mut self, address: u32, data: &[u8]) -> (r: Result<(), Error>)
        requires
            address + data@.len() <= MEMORY_SIZE,
        ensures
            final(self).bus() == old(self).bus(),
            programmed(old(self).history(), final(self).history(), address, data@, r),
            commanded_in_turn(
                old(self).history(),
                final(self).history(),
                program_commands(address as int, data@),
                r,
            ),
    {
        let ghost start = self.history();
        let ghost mut sent: Seq<WriteFrame> = Seq::empty();
        let mut done: usize = 0;
        proof {
            lemma_programming_starts(start, address, data@);
            lemma_none_in_turn(start);
        }
        while done < data.len()
            invariant
                done <= data.len(),
                address + data@.len() <= MEMORY_SIZE,
                start == old(self).history(),
                self.bus() == old(self).bus(),
                programming(start, self.history(), address, data@, done as int, sent),
                commanded_each(start, self.history(), sent),
            decreases data.len() - done,
        {
            let at: u32 = address + done as u32;
            let room: usize = (PAGE_SIZE - at % PAGE_SIZE) as usize;
            let left: usize = data.len() - done;
            let n: usize = if room < left {
                room
            } else {
                left
            };
            let piece = &data[done..done + n];
            let ghost before = self.history();
            let programmed = self.write_page(at, piece);
            proof {
                lemma_programming_step(
                    start,
                    before,
                    self.history(),
                    address,
                    data@,
                    done as int,
                    n as int,
                    sent,
                    programmed,
                );
                lemma_in_turn_step(
                    start,
                    before,
                    self.history(),
                    sent,
                    page_program_commands(at, piece@),
                    program_commands(at + n, data@.skip(done + n)),
                    programmed,
                );
                sent = sent + page_program_commands(at, piece@);
            }
            match programmed {
                Ok(()) => {},
                Err(fault) => {
                    return Err(fault);
                },
            }
            done = done + n;
        }
        proof {
            lemma_programming_ends(start, self.history(), address, data@, sent);
        }
        Ok(())
    }

    /// Write `piece` at `address` in `sector`: program it over what the
    /// sector holds where that can be done, else erase the sector and
    /// program it anew with the piece laid over what it held.
    fn write_sector(&mut self, sector: &Sector, address: u32, piece: &[u8]) -> (r: Result<
        (),
        Error,
    >)
        requires
            sector.first() == plan::sector_base(address as int),
            address + piece@.len() <= sector.limit(),
            piece@.len() > 0,
        ensures
            final(self).bus() == old(self).bus(),
            stored_sector(
                old(self).history(),
                final(self).history(),
                sector.first() as u32,
                address,
                piece@,
                r,
            ),
            sector_in_turn(
                old(self).history(),
                final(self).history(),
                sector.first() as u32,
                address,
                piece@,
                r,
            ),
    {
        let ghost start = self.history();
        let base: u32 = sector.start();
        let within: usize = (address - base) as usize;
        let mut scratch = [0xFFu8; 4096];
        let ghost blank = scratch@;
        let fetched = self.read_native(base, &mut scratch);
        let ghost image = scratch@;
        let ghost read = self.history();
        let ghost whole = sector_commands(address as int, piece@, image);
        match fetched {
            Ok(()) => {},
            Err(fault) => {
                proof {
                    lemma_sector_unread(start, read, base, address, piece@, blank, image, fetched);
                }
                return Err(fault);
            },
        }
        proof {
            assert(scratch@.subrange(within as int, 4096) =~= image.skip(within as int));
        }
        if is_subset_of(piece, &scratch[within..4096]) {
            let done = self.program(address, piece);
            proof {
                lemma_sector_read(start, read, self.history(), base, address, piece@, blank, image, done);
            }
            done
        } else {
            let ghost erase = erase_unit_commands(commands::OPCODE_ERASE_SECTOR, base);
            let ghost anew = program_commands(
                base as int,
                program::overlaid(image, within as int, piece@),
            );
            let erased = self.erase_sector(sector);
            let ghost wiped = self.history();
            proof {
                lemma_commanded_is_orderly(read, wiped, erase, erased);
                lemma_none_in_turn(read);
                lemma_in_turn_step(read, read, wiped, Seq::empty(), erase, anew, erased);
                assert(Seq::<WriteFrame>::empty() + erase =~= erase);
                assert((Seq::<WriteFrame>::empty() + erase) + anew =~= whole);
                lemma_issued_widen(read, wiped, erase, anew);
            }
            match erased {
                Ok(()) => {},
                Err(fault) => {
                    proof {
                        lemma_sector_read(start, read, wiped, base, address, piece@, blank, image, erased);
                    }
                    return Err(fault);
                },
            }
            overlay(&mut scratch, within, piece);
            let done = self.program(base, scratch.as_slice());
            proof {
                let now = self.history();
                lemma_ended_chain(read, wiped, now, fault_of(done));
                lemma_issued_chain(read, wiped, now, erase, anew);
                lemma_commands_chain(read, wiped, now);
                lemma_in_turn_chain(read, wiped, now, erase, anew, done);
                lemma_sector_read(start, read, now, base, address, piece@, blank, image, done);
            }
            done
        }
    }

    /// Write `bytes` at `offset`, whatever the chip holds there.
    ///
    /// The sectors that the range touches are taken in ascending order.
    /// Each is read once the chip is idle, and its part of the data is
    /// programmed over what it holds where that clears bits only; else the
    /// sector is erased and programmed anew, with the bytes outside of the
    /// range as they were read.
    pub fn write(&mut self, offset: u32, bytes: &[u8]) -> (r: Result<(), Error>)
        ensures
            final(self).bus() == old(self).bus(),
            offset + bytes@.len() > MEMORY_SIZE <==> r == Err::<(), Error>(Error::OutOfBounds),
            offset + bytes@.len() > MEMORY_SIZE || bytes@.len() == 0 ==> final(self).history()
                == old(self).history(),
            offset + bytes@.len() <= MEMORY_SIZE ==> stored(
                old(self).history(),
                final(self).history(),
                offset,
                bytes@,
                r,
            ),
            offset + bytes@.len() <= MEMORY_SIZE ==> stored_in_turn(
                old(self).history(),
                final(self).history(),
                offset,
                bytes@,
                r,
            ),
    {
        if bytes.len() > MEMORY_SIZE as usize || offset as usize > MEMORY_SIZE as usize
            - bytes.len() {
            return Err(Error::OutOfBounds);
        }
        let ghost start = self.history();
        let ghost mut fresh: Seq<Image> = Seq::empty();
        let mut done: usize = 0;
        proof {
            lemma_storing_starts(start, offset, bytes@);
            lemma_stored_nothing(start, offset, bytes@);
        }
        while done < bytes.len()
            invariant
                done <= bytes.len(),
                offset + bytes@.len() <= MEMORY_SIZE,
                start == old(self).history(),
                self.bus() == old(self).bus(),
                storing(start, self.history(), offset, bytes@, done as int, fresh),
                stored_each(start, self.history(), offset, bytes@, fresh.len() as int),
            decreases bytes.len() - done,
        {
            let at: u32 = offset + done as u32;
            let sector = match Sector::at(at) {
                Some(sector) => sector,
                None => {
                    return Err(Error::OutOfBounds);
                },
            };
            proof {
                flash_params::lemma_region_start(SECTOR_SIZE as nat, at as nat);
            }
            let room: usize = (sector.end() - at) as usize;
            let left: usize = bytes.len() - done;
            let n: usize = if room < left {
                room
            } else {
                left
            };
            let piece = &bytes[done..done + n];
            let ghost before = self.history();
            let written_sector = self.write_sector(&sector, at, piece);
            proof {
                lemma_storing_step(
                    start,
                    before,
                    self.history(),
                    offset,
                    bytes@,
                    done as int,
                    n as int,
                    fresh,
                    written_sector,
                );
                lemma_stored_each_step(
                    start,
                    before,
                    self.history(),
                    offset,
                    bytes@,
                    fresh.len() as int,
                    written_sector,
                );
            }
            match written_sector {
                Ok(()) => {},
                Err(fault) => {
                    return Err(fault);
                },
            }
            proof {
                fresh = fresh.push(images(self.history()).last());
            }
            done = done + n;
        }
        proof {
            lemma_storing_ends(start, self.history(), offset, bytes@, fresh);
        }
        Ok(())
    }

    /// Erase the largest of block, half block and sector that starts at
    /// `at` and ends at or before `to`, and give the address after it.
    /// Beyond the end of the chip there is none.
    fn erase_next(&mut self, at: u32, to: u32) -> (r: Result<u32, Error>)
        requires
            at < to,
            at % SECTOR_SIZE == 0,
            to % SECTOR_SIZE == 0,
        ensures
            final(self).bus() == old(self).bus(),
            at >= BASE_ADDRESS + MEMORY_SIZE ==> r == Err::<u32, Error>(Error::OutOfBounds)
                && final(self).history() == old(self).history(),
            at < BASE_ADDRESS + MEMORY_SIZE ==> commanded(
                old(self).history(),
                final(self).history(),
                next_unit_commands(at, to),
                outcome(r),
            ),
            r matches Ok(next) ==> next == at + plan::unit_size(at as int, to as int) && at < next
                <= to && next <= BASE_ADDRESS + MEMORY_SIZE && next % SECTOR_SIZE == 0,
    {
        proof {
            plan::lemma_unit_fits(at as int, to as int);
        }
        if at % BLOCK_SIZE == 0 && to - at >= BLOCK_SIZE {
            let block = match Block::at(at) {
                Some(block) => block,
                None => {
                    return Err(Error::OutOfBounds);
                },
            };
            proof {
                flash_params::lemma_region_start(BLOCK_SIZE as nat, at as nat);
            }
            match self.erase_block(&block) {
                Ok(()) => Ok(at + BLOCK_SIZE),
                Err(fault) => Err(fault),
            }
        } else if at % HALFBLOCK_SIZE == 0 && to - at >= HALFBLOCK_SIZE {
            let halfblock = match HalfBlock::at(at) {
                Some(halfblock) => halfblock,
                None => {
                    return Err(Error::OutOfBounds);
                },
            };
            proof {
                flash_params::lemma_region_start(HALFBLOCK_SIZE as nat, at as nat);
            }
            match self.erase_halfblock(&halfblock) {
                Ok(()) => Ok(at + HALFBLOCK_SIZE),
                Err(fault) => Err(fault),
            }
        } else {
            let sector = match Sector::at(at) {
                Some(sector) => sector,
                None => {
                    return Err(Error::OutOfBounds);
                },
            };
            proof {
                flash_params::lemma_region_start(SECTOR_SIZE as nat, at as nat);
            }
            match self.erase_sector(&sector) {
                Ok(()) => Ok(at + SECTOR_SIZE),
                Err(fault) => Err(fault),
            }
        }
    }

    /// Erase the range from `from` up to `to`. Both must lie on a sector
    /// boundary.
    ///
    /// The whole chip is erased by one command. Any other range is erased
    /// unit by unit in ascending order, each time with the largest of block,
    /// half block and sector that starts at the position reached and ends at
    /// or before `to`. A range that reaches beyond the chip is erased as far
    /// as the chip goes, and then fails. Before each unit the status
    /// register is read once; if the chip is busy the erase stops there.
    pub fn erase(&mut self, from: u32, to: u32) -> (r: Result<(), Error>)
        ensures
            final(self).bus() == old(self).bus(),
            from % SECTOR_SIZE != 0 || to % SECTOR_SIZE != 0 <==> r == Err::<(), Error>(
                Error::Alignment,
            ),
            from % SECTOR_SIZE != 0 || to % SECTOR_SIZE != 0 ==> final(self).history() == old(
                self).history(),
            from % SECTOR_SIZE == 0 && to % SECTOR_SIZE == 0 ==> erased(
                old(self).history(),
                final(self).history(),
                from,
                to,
                r,
            ),
    {
        // Check that from & to is properly aligned to a proper erase resolution
        if to % SECTOR_SIZE != 0 || from % SECTOR_SIZE != 0 {
            return Err(Error::Alignment);
        }
        let ghost start = self.history();
        // Shortcut to erase entire chip
        if MemoryMap::start() == from && MemoryMap::end() == to {
            let erased = self.erase_chip();
            proof {
                lemma_commanded_is_orderly(
                    start,
                    self.history(),
                    plan::chip_erase_commands(),
                    erased,
                );
                lemma_one_in_turn(start, self.history(), plan::chip_erase_commands(), erased);
            }
            return erased;
        }
        let ghost mut sent: Seq<WriteFrame> = Seq::empty();
        let mut at: u32 = from;
        proof {
            lemma_erasing_starts(start, from, to);
        }
        while at < to
            invariant
                start == old(self).history(),
                self.bus() == old(self).bus(),
                from % SECTOR_SIZE == 0,
                at % SECTOR_SIZE == 0,
                to % SECTOR_SIZE == 0,
                erasing(start, self.history(), from, at, to, sent),
            decreases to - at,
        {
            let ghost before = self.history();
            let erased = self.erase_next(at, to);
            proof {
                if at < BASE_ADDRESS + MEMORY_SIZE {
                    lemma_erasing_step(
                        start,
                        before,
                        self.history(),
                        from,
                        at,
                        to,
                        sent,
                        match erased {
                            Ok(next) => next,
                            Err(_) => at,
                        },
                        outcome(erased),
                    );
                    sent = sent + next_unit_commands(at, to);
                } else {
                    lemma_erasing_ends(start, before, from, at, to, sent);
                }
            }
            match erased {
                Ok(next) => {
                    at = next;
                },
                Err(fault) => {
                    return Err(fault);
                },
            }
        }
        proof {
            lemma_erasing_ends(start, self.history(), from, at, to, sent);
        }
        Ok(())
    }
}

} // verus!
