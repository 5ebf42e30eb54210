//! What each operation of the driver leaves on the record of its bus.
//!
//! The contracts of the driver are stated over the record of transactions
//! before and after a call. A single command is stated transaction by
//! transaction. A read is a wait for the chip and one transaction. Writing
//! and erasing a range are stated twice: as what their write transactions
//! are, in order, and as the single operations that they consist of, one
//! after the other.

use crate::bus::{
    ended, fault_of, images, issued_all, issued_within, left_idle, only_commands, only_traffic,
    stops_when_busy, written, written_at_image, Image, Transaction,
};
use crate::commands;
use crate::commands::{quad_read_template, QspiMode, QspiReadCommand, WriteFrame};
use crate::flash_params::{BASE_ADDRESS, MEMORY_SIZE, SECTOR_SIZE};
use crate::plan;
use crate::plan::{
    erase_commands, program_commands, sector_base, sector_commands, sectors_spanned,
    write_commands,
};
use crate::turns::{commanded_in_turn, upto};
use crate::{Error, POLL_LIMIT};
use vstd::prelude::*;

verus! {

/// The command that reads `length` bytes of memory from `offset` on.
pub open spec fn read_of(offset: u32, length: nat) -> QspiReadCommand {
    quad_read_template().with_address(offset, QspiMode::QuadChannel).with_receive_length(
        length as u32,
    )
}

/// Whether the transactions of `record` from the one at `at` on are the two
/// frames of `plan` and then polls of the status register as long as that
/// shows the chip busy, and nothing else, up to the first that the bus
/// refuses.
pub open spec fn ran_from(record: Seq<Transaction>, at: int, plan: Seq<WriteFrame>) -> bool {
    &&& plan.len() == 2
    &&& record.len() > at
    &&& record[at].wrote(plan[0])
    &&& if !record[at].accepted() {
        record.len() == at + 1
    } else {
        &&& record.len() >= at + 2
        &&& record[at + 1].wrote(plan[1])
        &&& if !record[at + 1].accepted() {
            record.len() == at + 2
        } else {
            &&& record.len() >= at + 3
            &&& forall|i: int| at + 2 <= i < record.len() ==> (#[trigger] record[i]).is_poll()
            &&& forall|i: int|
                at + 2 <= i < record.len() - 1 ==> (#[trigger] record[i]).shows_busy()
            &&& record.last().shows_busy() ==> record.len() == at + 2 + POLL_LIMIT
        }
    }
}

/// How an operation ran that issues the two frames of `plan` and then
/// waits until the chip is idle.
///
/// It hands the first frame to the bus, then the second, then polls the
/// status register as long as that shows the chip busy, and nothing else.
/// It stops at the first transaction that the bus refuses.
pub open spec fn ran(
    then: Seq<Transaction>,
    now: Seq<Transaction>,
    plan: Seq<WriteFrame>,
    r: Result<(), Error>,
) -> bool {
    &&& ended(then, now, fault_of(r))
    &&& issued_within(then, now, plan)
    &&& images(now) == images(then)
    &&& ran_from(now, then.len() as int, plan)
    &&& match r {
        Ok(()) => issued_all(then, now, plan) && now.last().shows_idle(),
        Err(fault) => fault == Error::Qspi || fault == Error::Busy,
    }
}

/// How an operation ran that polls the status register once and, if the
/// chip is idle, issues the two frames of `plan` and waits until the chip
/// is idle again.
///
/// The first transaction is the poll. Where it does not find the chip
/// idle, the operation stops there, with `Error::Busy` if it found the chip
/// busy. Else the two frames follow, and then polls as long as the chip is
/// busy, and nothing else. On success all of `plan` was issued and the last
/// poll found the chip idle.
pub open spec fn commanded(
    then: Seq<Transaction>,
    now: Seq<Transaction>,
    plan: Seq<WriteFrame>,
    r: Result<(), Error>,
) -> bool {
    let base = then.len() as int;
    &&& ended(then, now, fault_of(r))
    &&& issued_within(then, now, plan)
    &&& images(now) == images(then)
    &&& now.len() > base
    &&& now[base].is_poll()
    &&& if now[base].shows_idle() {
        ran_from(now, base + 1, plan)
    } else {
        now.len() == base + 1
    }
    &&& match r {
        Ok(()) => issued_all(then, now, plan) && now.last().shows_idle(),
        Err(fault) => fault == Error::Qspi || fault == Error::Busy,
    }
}

/// How an operation ran that waits until the chip is idle and then reads
/// memory with `command` into a buffer that held `before` and holds `after`.
///
/// It polls the status register as long as that shows the chip busy. Where
/// a poll shows the chip idle, the read follows at once and is the last
/// transaction. Where the wait fails, the last transaction is a poll, the
/// buffer is as it was, and nothing was read. Nothing is written.
pub open spec fn streamed(
    then: Seq<Transaction>,
    now: Seq<Transaction>,
    command: QspiReadCommand,
    before: Seq<u8>,
    after: Seq<u8>,
    r: Result<(), Error>,
) -> bool {
    &&& ended(then, now, fault_of(r))
    &&& now.len() > then.len()
    &&& written(now) == written(then)
    &&& if now.last().is_poll() {
        &&& forall|i: int| then.len() <= i < now.len() ==> (#[trigger] now[i]).is_poll()
        &&& forall|i: int| then.len() <= i < now.len() - 1 ==> (#[trigger] now[i]).shows_busy()
        &&& !now.last().shows_idle()
        &&& now.last().shows_busy() ==> now.len() == then.len() + POLL_LIMIT
        &&& after == before
        &&& images(now) == images(then)
        &&& r is Err
    } else {
        &&& now.len() >= then.len() + 2
        &&& forall|i: int| then.len() <= i < now.len() - 2 ==> (#[trigger] now[i]).shows_busy()
        &&& now[now.len() - 2].shows_idle()
        &&& now.last() == (Transaction::Read { command, accepted: r is Ok, data: after })
        &&& r is Ok ==> images(now) == images(then).push(Image { command, data: after })
            && written_at_image(now, images(then).len() as int) == written(then)
        &&& r is Err ==> images(now) == images(then)
    }
    &&& r matches Err(fault) ==> fault == Error::Qspi || fault == Error::Busy
}

/// How programming `data` at `address` page by page ran.
///
/// What was issued is what programming the data takes, as far as it got
/// and all of it on success. Each page polls the status register first and
/// stops if the chip is busy; nothing but polls and writes was handed to the
/// bus.
pub open spec fn programmed(
    then: Seq<Transaction>,
    now: Seq<Transaction>,
    address: u32,
    data: Seq<u8>,
    r: Result<(), Error>,
) -> bool {
    &&& ended(then, now, fault_of(r))
    &&& issued_within(then, now, program_commands(address as int, data))
    &&& images(now) == images(then)
    &&& only_commands(then, now)
    &&& stops_when_busy(then, now)
    &&& data.len() == 0 ==> now == then
    &&& data.len() > 0 ==> now.len() > then.len() && now[then.len() as int].is_poll()
    &&& match r {
        Ok(()) => issued_all(then, now, program_commands(address as int, data)) && left_idle(
            then,
            now,
        ),
        Err(fault) => fault == Error::Qspi || fault == Error::Busy,
    }
}

/// What erasing the largest unit that starts at `at` and ends at or before
/// `to` issues.
pub open spec fn next_unit_commands(at: u32, to: u32) -> Seq<WriteFrame> {
    (plan::Unit { start: at as int, size: plan::unit_size(at as int, to as int) }).commands()
}

/// Whether the erase of a unit, which gives the address after the unit,
/// succeeded, and how it failed.
pub open spec fn outcome(r: Result<u32, Error>) -> Result<(), Error> {
    match r {
        Ok(_) => Ok(()),
        Err(fault) => Err(fault),
    }
}

/// How an erase from `from` to `to`, both on sector boundaries, ran.
///
/// What was issued is what erasing that range takes, as far as the erase
/// got, and all of it if it succeeded. Nothing was read: every transaction
/// is a poll of the status register or a write, and every write directly
/// follows a write or a poll that found the chip idle. Where part of the
/// range lies on the chip, the first transaction is a poll. A poll that
/// finds the chip busy before a unit is erased is the last transaction, so
/// the erase then fails with `Error::Busy` and writes no more. An empty
/// range takes nothing. A range that reaches beyond the chip fails with
/// `Error::OutOfBounds`, after all of it that lies on the chip was erased.
///
/// The record as a whole is that of the erases of the units of the range,
/// one after the other up to the first that failed, each as `commanded`
/// says: one poll, and if the chip is idle a write enable, the erase of the
/// unit and polls until the chip is idle again.
pub open spec fn erased(
    then: Seq<Transaction>,
    now: Seq<Transaction>,
    from: u32,
    to: u32,
    r: Result<(), Error>,
) -> bool {
    let plan = erase_commands(from as int, to as int);
    let whole = from == BASE_ADDRESS && to == BASE_ADDRESS + MEMORY_SIZE;
    &&& whole ==> commanded(then, now, plan, r)
    &&& ended(then, now, fault_of(r))
    &&& issued_within(then, now, plan)
    &&& commanded_in_turn(
        then,
        now,
        plan,
        if r == Err::<(), Error>(Error::OutOfBounds) {
            Ok(())
        } else {
            r
        },
    )
    &&& images(now) == images(then)
    &&& only_commands(then, now)
    &&& stops_when_busy(then, now)
    &&& from >= to || from >= BASE_ADDRESS + MEMORY_SIZE ==> now == then
    &&& from < to && from < BASE_ADDRESS + MEMORY_SIZE ==> now.len() > then.len()
        && now[then.len() as int].is_poll()
    &&& match r {
        Ok(()) => issued_all(then, now, plan) && left_idle(then, now) && (from >= to || to
            <= BASE_ADDRESS + MEMORY_SIZE),
        Err(Error::OutOfBounds) => issued_all(then, now, plan) && left_idle(then, now) && from
            < to && to > BASE_ADDRESS + MEMORY_SIZE,
        Err(fault) => fault == Error::Qspi || fault == Error::Busy,
    }
}

/// How the write of `piece` at `address` in the sector that starts at
/// `base` ran.
///
/// The chip is polled until it is idle and the sector is read as a whole.
/// Where that fails nothing is written. Else what is issued is what the
/// piece takes in a sector that was read as it was, as far as the write got
/// and all of it on success.
pub open spec fn stored_sector(
    then: Seq<Transaction>,
    now: Seq<Transaction>,
    base: u32,
    address: u32,
    piece: Seq<u8>,
    r: Result<(), Error>,
) -> bool {
    &&& ended(then, now, fault_of(r))
    &&& now.len() > then.len()
    &&& now[then.len() as int].is_poll()
    &&& only_traffic(then, now)
    &&& r is Ok ==> left_idle(then, now)
    &&& r matches Err(fault) ==> fault == Error::Qspi || fault == Error::Busy
    &&& if images(now) == images(then) {
        &&& written(now) == written(then)
        &&& now.last().is_fetch() ==> now.last().fetched(read_of(base, SECTOR_SIZE as nat))
        &&& r is Err
    } else {
        let image = images(now).last();
        &&& images(now) == images(then).push(image)
        &&& image.command == read_of(base, SECTOR_SIZE as nat)
        &&& image.data.len() == SECTOR_SIZE
        &&& written_at_image(now, images(then).len() as int) == written(then)
        &&& issued_within(then, now, sector_commands(address as int, piece, image.data))
        &&& r is Ok ==> issued_all(then, now, sector_commands(address as int, piece, image.data))
        &&& !now.last().is_fetch()
    }
}

/// Whether the record from `then` to `now` is that of the write of `piece`
/// at `address` in the sector that starts at `base`: of the wait for the
/// chip and the read of the sector, as `streamed` says, and then, if the
/// sector was read, of the commands that the piece takes in a sector that
/// was read as it was, as `commanded_in_turn` says.
///
/// The definition stays folded in proofs until it is revealed.
#[verifier::opaque]
pub open spec fn sector_in_turn(
    then: Seq<Transaction>,
    now: Seq<Transaction>,
    base: u32,
    address: u32,
    piece: Seq<u8>,
    r: Result<(), Error>,
) -> bool {
    let fetch = read_of(base, SECTOR_SIZE as nat);
    ||| r is Err && exists|blank: Seq<u8>, image: Seq<u8>|
        #![trigger streamed(then, now, fetch, blank, image, r)]
        streamed(then, now, fetch, blank, image, r)
    ||| exists|cut: int, blank: Seq<u8>, image: Seq<u8>|
        #![trigger streamed(then, upto(now, cut), fetch, blank, image, Ok(()))]
        then.len() <= cut <= now.len() && image.len() == SECTOR_SIZE && streamed(
            then,
            upto(now, cut),
            fetch,
            blank,
            image,
            Ok(()),
        ) && commanded_in_turn(
            upto(now, cut),
            now,
            sector_commands(address as int, piece, image),
            r,
        )
}

/// Whether the record from `then` to `now` is that of the writes of the
/// first `sectors` pieces of `data`, each in its sector, one after the
/// other, each of which ran as `sector_in_turn` says and succeeded.
///
/// The definition stays folded in proofs until it is revealed.
#[verifier::opaque]
pub open spec fn stored_each(
    then: Seq<Transaction>,
    now: Seq<Transaction>,
    offset: u32,
    data: Seq<u8>,
    sectors: int,
) -> bool
    decreases sectors,
{
    if sectors <= 0 {
        now == then
    } else {
        exists|cut: int|
            #![trigger upto(now, cut)]
            then.len() <= cut <= now.len() && stored_each(
                then,
                upto(now, cut),
                offset,
                data,
                sectors - 1,
            ) && sector_in_turn(
                upto(now, cut),
                now,
                sector_base(plan::piece_start(offset as int, sectors - 1)) as u32,
                plan::piece_start(offset as int, sectors - 1) as u32,
                plan::piece(offset as int, data, sectors - 1),
                Ok(()),
            )
    }
}

/// Whether the record from `then` to `now` is that of the writes of the
/// pieces of `data`, each in its sector, one after the other up to the
/// first that failed, and of all of them if none did.
pub open spec fn stored_in_turn(
    then: Seq<Transaction>,
    now: Seq<Transaction>,
    offset: u32,
    data: Seq<u8>,
    r: Result<(), Error>,
) -> bool {
    match r {
        Ok(()) => stored_each(
            then,
            now,
            offset,
            data,
            sectors_spanned(offset as int, data.len() as int),
        ),
        Err(fault) => exists|k: int, cut: int|
            #![trigger upto(now, cut), plan::piece(offset as int, data, k)]
            0 <= k < sectors_spanned(offset as int, data.len() as int) && then.len() <= cut
                <= now.len() && stored_each(then, upto(now, cut), offset, data, k)
                && sector_in_turn(
                upto(now, cut),
                now,
                sector_base(plan::piece_start(offset as int, k)) as u32,
                plan::piece_start(offset as int, k) as u32,
                plan::piece(offset as int, data, k),
                Err(fault),
            ),
    }
}

/// How a write of `data` at `offset`, which ends on the chip, ran.
///
/// The sectors that the data touches were read one after the other in
/// ascending order, each as a whole, as many as the write got to: all of
/// them if it succeeded. When a sector was read, what had been issued was
/// what the sectors before it took. What was issued in all is what the
/// sectors that were read take, each decided by what it was read as, as far
/// as the write got and all of it if it succeeded. That holds at most one
/// erase for each sector.
///
/// Every transaction is a poll of the status register, a write or a read of
/// a sector, and the first is a poll. Every read of a sector directly
/// follows a poll that found the chip idle, and every write directly follows
/// a write or such a poll. A read that the bus refused is that of the sector
/// that follows those that were read.
pub open spec fn stored(
    then: Seq<Transaction>,
    now: Seq<Transaction>,
    offset: u32,
    data: Seq<u8>,
    r: Result<(), Error>,
) -> bool {
    let fresh = images(now).skip(images(then).len() as int);
    let plan = write_commands(offset as int, data, fresh);
    let sectors = sectors_spanned(offset as int, data.len() as int);
    &&& ended(then, now, fault_of(r))
    &&& images(now) == images(then) + fresh
    &&& fresh.len() <= sectors
    &&& forall|k: int|
        0 <= k < fresh.len() ==> (#[trigger] fresh[k]).command == read_of(
            sector_base(plan::piece_start(offset as int, k)) as u32,
            SECTOR_SIZE as nat,
        ) && fresh[k].data.len() == SECTOR_SIZE
    &&& forall|k: int|
        0 <= k < fresh.len() ==> #[trigger] written_at_image(now, images(then).len() + k)
            == written(then) + write_commands(offset as int, data, fresh.take(k))
    &&& issued_within(then, now, plan)
    &&& plan::erases(written(now)) <= plan::erases(written(then)) + sectors
    &&& only_traffic(then, now)
    &&& data.len() > 0 ==> now.len() > then.len() && now[then.len() as int].is_poll()
    &&& now.len() > then.len() && now.last().is_fetch() && !now.last().accepted()
        ==> now.last().fetched(
        read_of(
            sector_base(plan::piece_start(offset as int, fresh.len() as int)) as u32,
            SECTOR_SIZE as nat,
        ),
    )
    &&& match r {
        Ok(()) => fresh.len() == sectors && issued_all(then, now, plan) && left_idle(then, now),
        Err(fault) => fault == Error::Qspi || fault == Error::Busy,
    }
}

/// An operation that ran as `commanded` says issued only polls and writes,
/// wrote only after it had found the chip idle, and stopped where it found
/// the chip busy.
pub proof fn lemma_commanded_is_orderly(
    then: Seq<Transaction>,
    now: Seq<Transaction>,
    plan: Seq<WriteFrame>,
    r: Result<(), Error>,
)
    requires
        commanded(then, now, plan, r),
    ensures
        then.is_prefix_of(now),
        only_commands(then, now),
        stops_when_busy(then, now),
        r is Ok ==> left_idle(then, now),
{
    let base = then.len() as int;
    assert forall|i: int| then.len() <= i < now.len() implies (#[trigger] now[i]).is_poll()
        || now[i] is Write by {}
    assert forall|i: int| then.len() <= i < now.len() && (#[trigger] now[i]) is Write implies i
        > then.len() && (now[i - 1].shows_idle() || now[i - 1] is Write) by {
        if i >= base + 3 {
            assert(now[i].is_poll());
        }
    }
    assert forall|i: int|
        then.len() <= i < now.len() - 1 && (#[trigger] now[i]).shows_busy() implies i > then.len()
            && (now[i - 1] is Write || now[i - 1].shows_busy()) by {
        if i >= base + 4 {
            assert(now[i - 1].shows_busy());
        }
    }
}

/// An operation that ran as `streamed` says, with a command that reads
/// memory, issued only polls and at most one read of memory, which directly
/// follows a poll that found the chip idle.
pub proof fn lemma_streamed_is_orderly(
    then: Seq<Transaction>,
    now: Seq<Transaction>,
    command: QspiReadCommand,
    before: Seq<u8>,
    after: Seq<u8>,
    r: Result<(), Error>,
)
    requires
        streamed(then, now, command, before, after, r),
        command.instruction == Some((commands::OPCODE_QUAD_READ, QspiMode::SingleChannel)),
    ensures
        then.is_prefix_of(now),
        only_traffic(then, now),
        now[then.len() as int].is_poll(),
        now.last().is_fetch() ==> now.last().fetched(command),
{
    assert forall|i: int| then.len() <= i < now.len() implies (#[trigger] now[i]).is_poll()
        || now[i] is Write || now[i].is_fetch() by {
        if !now.last().is_poll() && i < now.len() - 2 {
            assert(now[i].shows_busy());
        }
    }
    assert forall|i: int|
        then.len() <= i < now.len() && (#[trigger] now[i]).is_fetch() implies i > then.len()
            && now[i - 1].shows_idle() by {
        if now.last().is_poll() {
            assert(now[i].is_poll());
        } else if i < now.len() - 2 {
            assert(now[i].shows_busy());
        }
    }
    if !now.last().is_poll() && now.len() > then.len() + 2 {
        assert(now[then.len() as int].shows_busy());
    }
}

} // verus!
