//! How the loops of the driver get from one sector, unit or page to the
//! next: what holds of the record while a range is written, erased or
//! programmed, and why it still holds after one more step.

use crate::bus::{
    ended, fault_of, images, issued_all, issued_within, left_idle, lemma_all_is_within,
    lemma_commands_are_traffic, lemma_commands_chain, lemma_ended_chain, lemma_ended_nothing,
    lemma_ended_other, lemma_images_stay, lemma_issued_chain, lemma_issued_widen,
    lemma_traffic_chain, only_commands, only_traffic, stops_when_busy, written,
    written_at_image, Image, Transaction,
};
use crate::commands::WriteFrame;
use crate::flash_params::{BASE_ADDRESS, MEMORY_SIZE, SECTOR_SIZE};
use crate::outcomes::{
    commanded, erased, lemma_commanded_is_orderly, lemma_streamed_is_orderly,
    next_unit_commands, programmed, read_of, sector_in_turn, stored, stored_each,
    stored_in_turn, stored_sector, streamed,
};
use crate::plan;
use crate::plan::{
    page_program_commands, program_commands, sector_base, sector_commands, sectors_spanned,
    write_commands,
};
use crate::turns::{
    commanded_each, commanded_in_turn, lemma_in_turn_step, lemma_none_in_turn, upto,
};
use crate::Error;
use vstd::prelude::*;

verus! {

/// A read of a sector and the commands that follow it are the write of a
/// piece in that sector.
pub proof fn lemma_sector_in_turn(
    then: Seq<Transaction>,
    read: Seq<Transaction>,
    now: Seq<Transaction>,
    base: u32,
    address: u32,
    piece: Seq<u8>,
    blank: Seq<u8>,
    image: Seq<u8>,
    r: Result<(), Error>,
)
    requires
        then.is_prefix_of(read),
        read.is_prefix_of(now),
        image.len() == SECTOR_SIZE,
        streamed(then, read, read_of(base, SECTOR_SIZE as nat), blank, image, Ok(())),
        commanded_in_turn(read, now, sector_commands(address as int, piece, image), r),
    ensures
        sector_in_turn(then, now, base, address, piece, r),
{
    reveal(sector_in_turn);
    let cut = read.len() as int;
    assert(upto(now, cut) =~= read);
    assert(streamed(
        then,
        upto(now, cut),
        read_of(base, SECTOR_SIZE as nat),
        blank,
        image,
        Ok(()),
    ));
}

/// A sector that could not be read was not written to.
pub proof fn lemma_sector_unread(
    then: Seq<Transaction>,
    now: Seq<Transaction>,
    base: u32,
    address: u32,
    piece: Seq<u8>,
    blank: Seq<u8>,
    image: Seq<u8>,
    r: Result<(), Error>,
)
    requires
        r is Err,
        streamed(then, now, read_of(base, SECTOR_SIZE as nat), blank, image, r),
    ensures
        stored_sector(then, now, base, address, piece, r),
        sector_in_turn(then, now, base, address, piece, r),
{
    reveal(sector_in_turn);
    lemma_streamed_is_orderly(then, now, read_of(base, SECTOR_SIZE as nat), blank, image, r);
}

/// A sector that was read, and then took the commands of `plan` as far as
/// they got, was written to as far as those commands got, where `plan` is
/// what the piece takes in the sector as it was read.
pub proof fn lemma_sector_read(
    then: Seq<Transaction>,
    read: Seq<Transaction>,
    now: Seq<Transaction>,
    base: u32,
    address: u32,
    piece: Seq<u8>,
    blank: Seq<u8>,
    image: Seq<u8>,
    r: Result<(), Error>,
)
    requires
        image.len() == SECTOR_SIZE,
        streamed(then, read, read_of(base, SECTOR_SIZE as nat), blank, image, Ok(())),
        ended(read, now, fault_of(r)),
        now.len() > read.len(),
        issued_within(read, now, sector_commands(address as int, piece, image)),
        r is Ok ==> issued_all(read, now, sector_commands(address as int, piece, image)),
        commanded_in_turn(read, now, sector_commands(address as int, piece, image), r),
        images(now) == images(read),
        only_commands(read, now),
        r is Ok ==> left_idle(read, now),
        r matches Err(fault) ==> fault == Error::Qspi || fault == Error::Busy,
    ensures
        stored_sector(then, now, base, address, piece, r),
        sector_in_turn(then, now, base, address, piece, r),
{
    let fetch = read_of(base, SECTOR_SIZE as nat);
    let whole = sector_commands(address as int, piece, image);
    lemma_streamed_is_orderly(then, read, fetch, blank, image, Ok(()));
    lemma_sector_in_turn(then, read, now, base, address, piece, blank, image, r);
    lemma_ended_chain(then, read, now, fault_of(r));
    lemma_images_stay(read, now);
    lemma_commands_are_traffic(read, now);
    lemma_traffic_chain(then, read, now);
    assert(written(then) + Seq::<WriteFrame>::empty() =~= written(then));
    lemma_issued_chain(then, read, now, Seq::empty(), whole);
    assert(Seq::<WriteFrame>::empty() + whole =~= whole);
    assert(now[then.len() as int] == read[then.len() as int]);
    assert(now.last().is_poll() || now.last() is Write);
    assert(images(now).last() == (Image { command: fetch, data: image }));
}

/// Where nothing was done, no piece was written.
pub proof fn lemma_stored_nothing(then: Seq<Transaction>, offset: u32, data: Seq<u8>)
    ensures
        stored_each(then, then, offset, data, 0),
{
    reveal(stored_each);
}

/// What the write of one more piece adds to writes that ran one after the
/// other.
pub proof fn lemma_stored_each_step(
    then: Seq<Transaction>,
    before: Seq<Transaction>,
    now: Seq<Transaction>,
    offset: u32,
    data: Seq<u8>,
    k: int,
    r: Result<(), Error>,
)
    requires
        then.is_prefix_of(before),
        before.is_prefix_of(now),
        0 <= k < sectors_spanned(offset as int, data.len() as int),
        stored_each(then, before, offset, data, k),
        sector_in_turn(
            before,
            now,
            sector_base(plan::piece_start(offset as int, k)) as u32,
            plan::piece_start(offset as int, k) as u32,
            plan::piece(offset as int, data, k),
            r,
        ),
    ensures
        r is Ok ==> stored_each(then, now, offset, data, k + 1),
        r is Err ==> stored_in_turn(then, now, offset, data, r),
{
    reveal_with_fuel(stored_each, 2);
    let cut = before.len() as int;
    assert(upto(now, cut) =~= before);
    assert(stored_each(then, upto(now, cut), offset, data, k));
    match r {
        Ok(unit) => {
            assert(unit == ());
        },
        Err(_) => {},
    }
}

/// What holds while `data` is written at `offset` sector by sector, when
/// `done` bytes of it are written and the sectors that hold them were read
/// as `fresh`.
#[verifier::opaque]
pub open spec fn storing(
    start: Seq<Transaction>,
    now: Seq<Transaction>,
    offset: u32,
    data: Seq<u8>,
    done: int,
    fresh: Seq<Image>,
) -> bool {
    &&& 0 <= done <= data.len()
    &&& offset + data.len() <= MEMORY_SIZE
    &&& ended(start, now, None)
    &&& images(now) == images(start) + fresh
    &&& forall|k: int|
        0 <= k < fresh.len() ==> (#[trigger] fresh[k]).command == read_of(
            sector_base(plan::piece_start(offset as int, k)) as u32,
            SECTOR_SIZE as nat,
        ) && fresh[k].data.len() == SECTOR_SIZE
    &&& forall|k: int|
        0 <= k < fresh.len() ==> #[trigger] written_at_image(now, images(start).len() + k)
            == written(start) + write_commands(offset as int, data, fresh.take(k))
    &&& issued_all(start, now, write_commands(offset as int, data, fresh))
    &&& only_traffic(start, now)
    &&& left_idle(start, now)
    &&& done == 0 ==> now == start
    &&& done > 0 ==> now.len() > start.len() && now[start.len() as int].is_poll()
    &&& done < data.len() ==> offset + done == plan::piece_start(
        offset as int,
        fresh.len() as int,
    ) && fresh.len() < sectors_spanned(offset as int, data.len() as int)
    &&& done == data.len() ==> fresh.len() == sectors_spanned(offset as int, data.len() as int)
}

/// Before any sector is written, nothing was issued.
pub proof fn lemma_storing_starts(start: Seq<Transaction>, offset: u32, data: Seq<u8>)
    requires
        offset + data.len() <= MEMORY_SIZE,
    ensures
        storing(start, start, offset, data, 0, Seq::empty()),
{
    reveal(storing);
    lemma_ended_nothing(start);
    assert(images(start) + Seq::<Image>::empty() =~= images(start));
}

/// What the write of one more sector adds to what was written.
pub proof fn lemma_storing_step(
    start: Seq<Transaction>,
    before: Seq<Transaction>,
    now: Seq<Transaction>,
    offset: u32,
    data: Seq<u8>,
    done: int,
    n: int,
    fresh: Seq<Image>,
    r: Result<(), Error>,
)
    requires
        storing(start, before, offset, data, done, fresh),
        done < data.len(),
        n == if sector_base(offset + done) + SECTOR_SIZE - (offset + done) < data.len() - done {
            sector_base(offset + done) + SECTOR_SIZE - (offset + done)
        } else {
            data.len() - done
        },
        stored_sector(
            before,
            now,
            sector_base(offset + done) as u32,
            (offset + done) as u32,
            data.subrange(done, done + n),
            r,
        ),
    ensures
        r is Ok ==> storing(start, now, offset, data, done + n, fresh.push(images(now).last())),
        r is Err ==> stored(start, now, offset, data, r),
        offset + done == plan::piece_start(offset as int, fresh.len() as int),
        data.subrange(done, done + n) == plan::piece(offset as int, data, fresh.len() as int),
        fresh.len() < sectors_spanned(offset as int, data.len() as int),
        start.is_prefix_of(before),
        before.is_prefix_of(now),
{
    reveal(storing);
    let at = offset + done;
    let k = fresh.len() as int;
    let sofar = write_commands(offset as int, data, fresh);
    let piece = data.subrange(done, done + n);
    plan::lemma_piece_bounds(offset as int, data, done, k, n);
    lemma_ended_chain(start, before, now, fault_of(r));
    lemma_images_stay(before, now);
    lemma_traffic_chain(start, before, now);
    assert(before.len() > start.len() ==> now[start.len() as int] == before[start.len() as int]);
    if images(now) == images(before) {
        assert(images(now).skip(images(start).len() as int) =~= fresh);
        assert(written(now) =~= written(start) + sofar);
        lemma_all_is_within(start, now, sofar);
    } else {
        let image = images(now).last();
        let grown = fresh.push(image);
        let step = sector_commands(at, piece, image.data);
        assert(images(now) =~= images(start) + grown);
        assert(images(now).skip(images(start).len() as int) =~= grown);
        assert(grown.drop_last() =~= fresh);
        assert(write_commands(offset as int, data, grown) == sofar + step);
        lemma_issued_chain(start, before, now, sofar, step);
        assert forall|j: int| 0 <= j < grown.len() implies #[trigger] written_at_image(
            now,
            images(start).len() + j,
        ) == written(start) + write_commands(offset as int, data, grown.take(j)) by {
            if j < fresh.len() {
                assert(grown.take(j) =~= fresh.take(j));
            } else {
                assert(grown.take(j) =~= fresh);
            }
        }
    }
    plan::lemma_write_erases_at_most_its_sectors(
        start,
        now,
        offset as int,
        data,
        images(now).skip(images(start).len() as int),
    );
}

/// When all sectors are written, all was issued.
pub proof fn lemma_storing_ends(
    start: Seq<Transaction>,
    now: Seq<Transaction>,
    offset: u32,
    data: Seq<u8>,
    fresh: Seq<Image>,
)
    requires
        storing(start, now, offset, data, data.len() as int, fresh),
    ensures
        stored(start, now, offset, data, Ok(())),
        fresh.len() == sectors_spanned(offset as int, data.len() as int),
        data.len() == 0 ==> now == start,
{
    reveal(storing);
    assert(images(now).skip(images(start).len() as int) =~= fresh);
    lemma_all_is_within(start, now, write_commands(offset as int, data, fresh));
    plan::lemma_write_erases_at_most_its_sectors(start, now, offset as int, data, fresh);
}

/// What holds while the range from `from` to `to`, which is not the whole
/// chip, is erased unit by unit, when the units up to `at` are erased and
/// `sent` was issued for them.
#[verifier::opaque]
pub open spec fn erasing(
    start: Seq<Transaction>,
    now: Seq<Transaction>,
    from: u32,
    at: u32,
    to: u32,
    sent: Seq<WriteFrame>,
) -> bool {
    &&& from <= at
    &&& from % SECTOR_SIZE == 0
    &&& at % SECTOR_SIZE == 0
    &&& to % SECTOR_SIZE == 0
    &&& !(from == BASE_ADDRESS && to == BASE_ADDRESS + MEMORY_SIZE)
    &&& at > from ==> at <= to && at <= BASE_ADDRESS + MEMORY_SIZE
    &&& ended(start, now, None)
    &&& issued_all(start, now, sent)
    &&& commanded_each(start, now, sent)
    &&& sent + plan::erase_walk(at as int, to as int) == plan::erase_walk(from as int, to as int)
    &&& images(now) == images(start)
    &&& only_commands(start, now)
    &&& stops_when_busy(start, now)
    &&& left_idle(start, now)
    &&& at == from ==> now == start
    &&& at > from ==> now.len() > start.len() && now[start.len() as int].is_poll()
}

/// Before any unit is erased, nothing was issued.
pub proof fn lemma_erasing_starts(start: Seq<Transaction>, from: u32, to: u32)
    requires
        from % SECTOR_SIZE == 0,
        to % SECTOR_SIZE == 0,
        !(from == BASE_ADDRESS && to == BASE_ADDRESS + MEMORY_SIZE),
    ensures
        erasing(start, start, from, from, to, Seq::empty()),
{
    reveal(erasing);
    lemma_ended_nothing(start);
    lemma_none_in_turn(start);
    assert(Seq::<WriteFrame>::empty() + plan::erase_walk(from as int, to as int)
        =~= plan::erase_walk(from as int, to as int));
}

/// What the erase of one more unit adds to what was erased.
pub proof fn lemma_erasing_step(
    start: Seq<Transaction>,
    before: Seq<Transaction>,
    now: Seq<Transaction>,
    from: u32,
    at: u32,
    to: u32,
    sent: Seq<WriteFrame>,
    next: u32,
    r: Result<(), Error>,
)
    requires
        erasing(start, before, from, at, to, sent),
        at < to,
        at < BASE_ADDRESS + MEMORY_SIZE,
        commanded(before, now, next_unit_commands(at, to), r),
        r is Ok ==> next == at + plan::unit_size(at as int, to as int) && at < next <= to && next
            <= BASE_ADDRESS + MEMORY_SIZE && next % SECTOR_SIZE == 0,
    ensures
        r is Ok ==> erasing(start, now, from, next, to, sent + next_unit_commands(at, to)),
        r is Err ==> erased(start, now, from, to, r),
{
    reveal(erasing);
    let step = next_unit_commands(at, to);
    let rest = plan::erase_walk(at + plan::unit_size(at as int, to as int), to as int);
    plan::lemma_walk_step(at as int, to as int);
    assert((sent + step) + rest =~= sent + (step + rest));
    lemma_in_turn_step(start, before, now, sent, step, rest, r);
    lemma_commanded_is_orderly(before, now, step, r);
    lemma_commands_chain(start, before, now);
    lemma_ended_chain(start, before, now, fault_of(r));
    lemma_issued_chain(start, before, now, sent, step);
    lemma_issued_widen(start, now, sent + step, rest);
    assert(before.len() > start.len() ==> now[start.len() as int] == before[start.len() as int]);
}

/// When the erase has reached the end of the range or of the chip, all was
/// issued.
pub proof fn lemma_erasing_ends(
    start: Seq<Transaction>,
    now: Seq<Transaction>,
    from: u32,
    at: u32,
    to: u32,
    sent: Seq<WriteFrame>,
)
    requires
        erasing(start, now, from, at, to, sent),
        at >= to || at >= BASE_ADDRESS + MEMORY_SIZE,
    ensures
        erased(
            start,
            now,
            from,
            to,
            if at >= to {
                Ok(())
            } else {
                Err(Error::OutOfBounds)
            },
        ),
{
    reveal(erasing);
    assert(plan::erase_walk(at as int, to as int) =~= Seq::<WriteFrame>::empty());
    assert(sent + Seq::<WriteFrame>::empty() =~= sent);
    lemma_all_is_within(start, now, plan::erase_walk(from as int, to as int));
    if at < to {
        lemma_ended_other(start, now, Error::OutOfBounds);
    }
}

/// What holds while `data` is programmed at `address`, when `done` bytes of
/// it are programmed and `sent` was issued for them.
#[verifier::opaque]
pub open spec fn programming(
    start: Seq<Transaction>,
    now: Seq<Transaction>,
    address: u32,
    data: Seq<u8>,
    done: int,
    sent: Seq<WriteFrame>,
) -> bool {
    &&& 0 <= done <= data.len()
    &&& ended(start, now, None)
    &&& issued_all(start, now, sent)
    &&& sent + program_commands(address + done, data.skip(done)) == program_commands(
        address as int,
        data,
    )
    &&& images(now) == images(start)
    &&& only_commands(start, now)
    &&& stops_when_busy(start, now)
    &&& left_idle(start, now)
    &&& done == 0 ==> now == start
    &&& done > 0 ==> now.len() > start.len() && now[start.len() as int].is_poll()
}

/// Before anything is programmed, nothing was issued.
pub proof fn lemma_programming_starts(start: Seq<Transaction>, address: u32, data: Seq<u8>)
    ensures
        programming(start, start, address, data, 0, Seq::empty()),
{
    reveal(programming);
    lemma_ended_nothing(start);
    assert(data.skip(0) =~= data);
    assert(Seq::<WriteFrame>::empty() + program_commands(address as int, data)
        =~= program_commands(address as int, data));
}

/// What one more page adds to what was programmed.
pub proof fn lemma_programming_step(
    start: Seq<Transaction>,
    before: Seq<Transaction>,
    now: Seq<Transaction>,
    address: u32,
    data: Seq<u8>,
    done: int,
    n: int,
    sent: Seq<WriteFrame>,
    r: Result<(), Error>,
)
    requires
        programming(start, before, address, data, done, sent),
        address + data.len() <= MEMORY_SIZE,
        done < data.len(),
        n == if plan::page_room(address + done) < data.len() - done {
            plan::page_room(address + done)
        } else {
            data.len() - done
        },
        commanded(
            before,
            now,
            page_program_commands((address + done) as u32, data.subrange(done, done + n)),
            r,
        ),
    ensures
        r is Ok ==> programming(
            start,
            now,
            address,
            data,
            done + n,
            sent + page_program_commands((address + done) as u32, data.subrange(done, done + n)),
        ),
        r is Err ==> programmed(start, now, address, data, r),
        (sent + page_program_commands((address + done) as u32, data.subrange(done, done + n)))
            + program_commands(address + done + n, data.skip(done + n)) == program_commands(
            address as int,
            data,
        ),
{
    reveal(programming);
    let step = page_program_commands((address + done) as u32, data.subrange(done, done + n));
    let rest = program_commands(address + done + n, data.skip(done + n));
    assert(data.skip(done).take(n) =~= data.subrange(done, done + n));
    assert(data.skip(done).skip(n) =~= data.skip(done + n));
    assert(program_commands(address + done, data.skip(done)) == step + rest);
    assert((sent + step) + rest =~= sent + (step + rest));
    lemma_commanded_is_orderly(before, now, step, r);
    lemma_commands_chain(start, before, now);
    lemma_ended_chain(start, before, now, fault_of(r));
    lemma_issued_chain(start, before, now, sent, step);
    lemma_issued_widen(start, now, sent + step, rest);
    assert(before.len() > start.len() ==> now[start.len() as int] == before[start.len() as int]);
}

/// When all is programmed, all was issued.
pub proof fn lemma_programming_ends(
    start: Seq<Transaction>,
    now: Seq<Transaction>,
    address: u32,
    data: Seq<u8>,
    sent: Seq<WriteFrame>,
)
    requires
        programming(start, now, address, data, data.len() as int, sent),
    ensures
        programmed(start, now, address, data, Ok(())),
        sent == program_commands(address as int, data),
{
    reveal(programming);
    assert(data.skip(data.len() as int) =~= Seq::<u8>::empty());
    assert(sent + Seq::<WriteFrame>::empty() =~= sent);
    lemma_all_is_within(start, now, program_commands(address as int, data));
}

} // verus!
