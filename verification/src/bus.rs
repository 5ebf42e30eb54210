//! The bus that carries commands to the chip, and the record of what was
//! put on it.
//!
//! The driver keeps, as ghost state, every transaction that it handed to its
//! bus, in order, with what the bus answered. The contracts of the driver
//! speak of that record.

use crate::commands::{
    status_poll, QspiMode, QspiReadCommand, QspiWriteCommand, WriteFrame, OPCODE_QUAD_READ,
};
use crate::status::Status;
use crate::Error;
use vstd::prelude::*;

verus! {

/// A bus to a chip. Both operations block until the transaction is over.
pub trait Qspi {
    /// The fault that the bus reports.
    type Error;

    /// Run a transaction that sends the command and its data.
    fn write(&self, cmd: QspiWriteCommand<'_>) -> Result<(), Self::Error>;

    /// Run a transaction that sends the command and receives into `buf`.
    fn transfer(&self, cmd: QspiReadCommand, buf: &mut [u8]) -> Result<(), Self::Error>;
}

/// One transaction handed to the bus.
pub enum Transaction {
    /// A write transaction, and whether the bus reported success.
    Write { frame: WriteFrame, accepted: bool },
    /// A read transaction, whether the bus reported success, and what the
    /// buffer held when the bus returned.
    Read { command: QspiReadCommand, accepted: bool, data: Seq<u8> },
}

impl Transaction {
    /// Whether the bus reported success.
    pub open spec fn accepted(self) -> bool {
        match self {
            Transaction::Write { accepted, .. } => accepted,
            Transaction::Read { accepted, .. } => accepted,
        }
    }

    /// Whether this is a read of the status register.
    pub open spec fn is_poll(self) -> bool {
        self matches Transaction::Read { command, data, .. } && command == status_poll()
            && data.len() == 1
    }

    /// Whether this is a read of the status register that succeeded and
    /// found the chip busy.
    pub open spec fn shows_busy(self) -> bool {
        self matches Transaction::Read { command, accepted, data } && command == status_poll()
            && data.len() == 1 && accepted && Status(data[0]).busy()
    }

    /// Whether this is a read of the status register that succeeded and
    /// found the chip idle.
    pub open spec fn shows_idle(self) -> bool {
        self matches Transaction::Read { command, accepted, data } && command == status_poll()
            && data.len() == 1 && accepted && !Status(data[0]).busy()
    }

    /// Whether this is a write transaction with the frame `frame`.
    pub open spec fn wrote(self, frame: WriteFrame) -> bool {
        match self {
            Transaction::Write { frame: sent, .. } => sent == frame,
            Transaction::Read { .. } => false,
        }
    }

    /// Whether this is a read of memory, whatever the bus answered.
    pub open spec fn is_fetch(self) -> bool {
        match self {
            Transaction::Read { command, .. } => command.instruction == Some(
                (OPCODE_QUAD_READ, QspiMode::SingleChannel),
            ),
            Transaction::Write { .. } => false,
        }
    }

    /// Whether this is a read of memory with the command `command`.
    pub open spec fn fetched(self, command: QspiReadCommand) -> bool {
        match self {
            Transaction::Read { command: sent, .. } => sent == command,
            Transaction::Write { .. } => false,
        }
    }

    /// Whether this is a read of memory that succeeded.
    pub open spec fn is_image(self) -> bool {
        match self {
            Transaction::Read { command, accepted, .. } => accepted && command.instruction
                == Some((OPCODE_QUAD_READ, QspiMode::SingleChannel)),
            Transaction::Write { .. } => false,
        }
    }
}

/// The write transactions of a record, in order, whether the bus accepted
/// them or not.
pub open spec fn written(record: Seq<Transaction>) -> Seq<WriteFrame>
    decreases record.len(),
{
    if record.len() == 0 {
        Seq::empty()
    } else {
        let before = written(record.drop_last());
        match record.last() {
            Transaction::Write { frame, .. } => before.push(frame),
            Transaction::Read { .. } => before,
        }
    }
}

/// A successful read of memory: the command, and what it returned.
pub struct Image {
    pub command: QspiReadCommand,
    pub data: Seq<u8>,
}

/// The successful reads of memory of a record, in order.
pub open spec fn images(record: Seq<Transaction>) -> Seq<Image>
    decreases record.len(),
{
    if record.len() == 0 {
        Seq::empty()
    } else {
        let before = images(record.drop_last());
        match record.last() {
            Transaction::Read { command, data, .. } if record.last().is_image() => before.push(
                Image { command, data },
            ),
            _ => before,
        }
    }
}

/// The write transactions that a record held when the successful read of
/// memory numbered `index`, counted from zero, was made.
pub open spec fn written_at_image(record: Seq<Transaction>, index: int) -> Seq<WriteFrame>
    decreases record.len(),
{
    if record.len() == 0 {
        Seq::empty()
    } else if record.last().is_image() && images(record).len() == index + 1 {
        written(record.drop_last())
    } else {
        written_at_image(record.drop_last(), index)
    }
}

/// What an operation of the driver left of a fault, if any.
pub open spec fn fault_of<T>(result: Result<T, Error>) -> Option<Error> {
    match result {
        Ok(_) => None,
        Err(fault) => Some(fault),
    }
}

/// How an operation that brought the record from `then` to `now` ended.
///
/// The record only grows. The operation stops at the first transaction that
/// the bus refuses, and reports that as `Error::Qspi`, so every transaction
/// before the last was accepted. It reports `Error::Busy` exactly when the
/// last thing it did was to read the status register and find the chip busy.
pub open spec fn ended(then: Seq<Transaction>, now: Seq<Transaction>, fault: Option<Error>) -> bool {
    &&& then.is_prefix_of(now)
    &&& forall|i: int| then.len() <= i < now.len() - 1 ==> (#[trigger] now[i]).accepted()
    &&& fault == Some(Error::Qspi) <==> now.len() > then.len() && !now.last().accepted()
    &&& fault == Some(Error::Busy) <==> now.len() > then.len() && now.last().shows_busy()
}

/// Whether every write added from `then` to `now` directly follows a write
/// or a poll that found the chip idle: nothing is written to a chip that may
/// be busy.
pub open spec fn writes_when_idle(then: Seq<Transaction>, now: Seq<Transaction>) -> bool {
    forall|i: int|
        then.len() <= i < now.len() && (#[trigger] now[i]) is Write ==> i > then.len() && (now[i
            - 1].shows_idle() || now[i - 1] is Write)
}

/// Whether every transaction added from `then` to `now` is a poll of the
/// status register or a write, and every write directly follows a write or
/// a poll that found the chip idle.
pub open spec fn only_commands(then: Seq<Transaction>, now: Seq<Transaction>) -> bool {
    &&& forall|i: int|
        then.len() <= i < now.len() ==> (#[trigger] now[i]).is_poll() || now[i] is Write
    &&& writes_when_idle(then, now)
}

/// Whether every transaction added from `then` to `now` is a poll of the
/// status register, a write or a read of memory, every read of memory
/// directly follows a poll that found the chip idle, and every write
/// directly follows a write or such a poll.
pub open spec fn only_traffic(then: Seq<Transaction>, now: Seq<Transaction>) -> bool {
    &&& forall|i: int|
        then.len() <= i < now.len() ==> (#[trigger] now[i]).is_poll() || now[i] is Write
            || now[i].is_fetch()
    &&& forall|i: int|
        then.len() <= i < now.len() && (#[trigger] now[i]).is_fetch() ==> i > then.len() && now[i
            - 1].shows_idle()
    &&& writes_when_idle(then, now)
}

/// Whether the operation that brought the record from `then` to `now` never
/// went on after finding the chip busy where it had not just kept it busy
/// itself: a poll that shows the chip busy and is not the last transaction
/// directly follows a write or another such poll. So one that is the first
/// transaction added, or directly follows a poll that found the chip idle,
/// is the last.
pub open spec fn stops_when_busy(then: Seq<Transaction>, now: Seq<Transaction>) -> bool {
    forall|i: int|
        then.len() <= i < now.len() - 1 && (#[trigger] now[i]).shows_busy() ==> i > then.len()
            && (now[i - 1] is Write || now[i - 1].shows_busy())
}

/// Whether the operation that brought the record from `then` to `now` did
/// nothing or saw the chip idle at last.
pub open spec fn left_idle(then: Seq<Transaction>, now: Seq<Transaction>) -> bool {
    now.len() > then.len() ==> now.last().shows_idle()
}

/// Whether the write transactions added from `then` to `now` are the first
/// of `plan`, in the order of `plan`.
pub open spec fn issued_within(
    then: Seq<Transaction>,
    now: Seq<Transaction>,
    plan: Seq<WriteFrame>,
) -> bool {
    &&& written(then).is_prefix_of(written(now))
    &&& written(now).is_prefix_of(written(then) + plan)
}

/// Whether the write transactions added from `then` to `now` are exactly
/// those of `plan`, in the order of `plan`.
pub open spec fn issued_all(
    then: Seq<Transaction>,
    now: Seq<Transaction>,
    plan: Seq<WriteFrame>,
) -> bool {
    written(now) == written(then) + plan
}

/// What one more transaction adds to the write transactions and to the
/// images of a record.
pub proof fn lemma_push(record: Seq<Transaction>, next: Transaction)
    ensures
        written(record.push(next)) == match next {
            Transaction::Write { frame, .. } => written(record).push(frame),
            Transaction::Read { .. } => written(record),
        },
        images(record.push(next)) == match next {
            Transaction::Read { command, data, .. } if next.is_image() => images(record).push(
                Image { command, data },
            ),
            _ => images(record),
        },
{
    assert(record.push(next).drop_last() =~= record);
}

/// An operation that fills its whole plan has stayed within it.
pub proof fn lemma_all_is_within(
    then: Seq<Transaction>,
    now: Seq<Transaction>,
    plan: Seq<WriteFrame>,
)
    requires
        issued_all(then, now, plan),
    ensures
        issued_within(then, now, plan),
{
    assert(written(then) =~= (written(then) + plan).subrange(0, written(then).len() as int));
    assert(written(now) =~= (written(then) + plan).subrange(0, written(now).len() as int));
}

/// After an operation that filled its plan, one that stays within a second
/// plan stays within the two plans in a row.
pub proof fn lemma_issued_chain(
    then: Seq<Transaction>,
    between: Seq<Transaction>,
    now: Seq<Transaction>,
    first: Seq<WriteFrame>,
    second: Seq<WriteFrame>,
)
    requires
        issued_all(then, between, first),
        issued_within(between, now, second),
    ensures
        issued_within(then, now, first + second),
        issued_all(between, now, second) ==> issued_all(then, now, first + second),
{
    let base = written(then);
    let mid = written(between);
    let all = written(now);
    assert(mid + second =~= base + (first + second));
    assert(base =~= all.subrange(0, base.len() as int)) by {
        assert(mid =~= all.subrange(0, mid.len() as int));
        assert(base =~= mid.subrange(0, base.len() as int));
    }
}

/// A plan that is the beginning of a longer one: staying within the shorter
/// is staying within the longer.
pub proof fn lemma_issued_widen(
    then: Seq<Transaction>,
    now: Seq<Transaction>,
    plan: Seq<WriteFrame>,
    rest: Seq<WriteFrame>,
)
    requires
        issued_within(then, now, plan),
    ensures
        issued_within(then, now, plan + rest),
{
    let base = written(then);
    let all = written(now);
    assert(all =~= (base + plan).subrange(0, all.len() as int));
    assert(all =~= (base + (plan + rest)).subrange(0, all.len() as int));
}

/// How two operations in a row end: if the first ended without fault, the
/// two together ended as the second did.
pub proof fn lemma_ended_chain(
    then: Seq<Transaction>,
    between: Seq<Transaction>,
    now: Seq<Transaction>,
    fault: Option<Error>,
)
    requires
        ended(then, between, None),
        ended(between, now, fault),
    ensures
        ended(then, now, fault),
{
    assert(then =~= now.subrange(0, then.len() as int)) by {
        assert(between =~= now.subrange(0, between.len() as int));
        assert(then =~= between.subrange(0, then.len() as int));
    }
    assert forall|i: int| then.len() <= i < now.len() - 1 implies (#[trigger] now[i]).accepted() by {
        if i < between.len() {
            assert(now[i] == between[i]);
            if i == between.len() - 1 {
                assert(between.last().accepted());
            }
        }
    }
    if now.len() == between.len() {
        assert(now =~= between);
    }
}

/// How an operation ends that, after ending without fault so far, hands
/// one more transaction to the bus and stops.
pub proof fn lemma_ended_step(
    then: Seq<Transaction>,
    now: Seq<Transaction>,
    next: Transaction,
    fault: Option<Error>,
)
    requires
        ended(then, now, None),
        fault == Some(Error::Qspi) <==> !next.accepted(),
        fault == Some(Error::Busy) <==> next.shows_busy(),
    ensures
        ended(then, now.push(next), fault),
{
    assert(then =~= now.push(next).subrange(0, then.len() as int)) by {
        assert(then =~= now.subrange(0, then.len() as int));
    }
    assert forall|i: int| then.len() <= i < now.push(next).len() - 1 implies (
    #[trigger] now.push(next)[i]).accepted() by {
        assert(now.push(next)[i] == now[i]);
        if i == now.len() - 1 {
            assert(now.last().accepted());
        }
    }
}

/// An operation that ended without fault ended the same way for whoever
/// goes on to report a fault that is neither of the bus nor of a busy chip.
pub proof fn lemma_ended_other(then: Seq<Transaction>, now: Seq<Transaction>, fault: Error)
    requires
        ended(then, now, None),
        fault != Error::Qspi,
        fault != Error::Busy,
    ensures
        ended(then, now, Some(fault)),
{
}

/// A record continues itself, and nothing has ended in a fault where
/// nothing was done.
pub proof fn lemma_ended_nothing(then: Seq<Transaction>)
    ensures
        ended(then, then, None),
        issued_all(then, then, Seq::empty()),
        issued_within(then, then, Seq::empty()),
{
    assert(then =~= then.subrange(0, then.len() as int));
    assert(written(then) + Seq::<WriteFrame>::empty() =~= written(then));
    assert(written(then) =~= written(then).subrange(0, written(then).len() as int));
}

/// A record that continues another holds the reads of memory of the
/// other, and what was written when each of them was made is what it was.
pub proof fn lemma_images_stay(then: Seq<Transaction>, now: Seq<Transaction>)
    requires
        then.is_prefix_of(now),
    ensures
        images(then).is_prefix_of(images(now)),
        forall|index: int|
            0 <= index < images(then).len() ==> #[trigger] written_at_image(now, index)
                == written_at_image(then, index),
    decreases now.len(),
{
    if now.len() > then.len() {
        let before = now.drop_last();
        assert(then =~= before.subrange(0, then.len() as int)) by {
            assert(then =~= now.subrange(0, then.len() as int));
        }
        lemma_images_stay(then, before);
        assert(images(then) =~= images(now).subrange(0, images(then).len() as int)) by {
            assert(images(then) =~= images(before).subrange(0, images(then).len() as int));
        }
        assert forall|index: int| 0 <= index < images(then).len() implies #[trigger] written_at_image(
            now,
            index,
        ) == written_at_image(then, index) by {
            assert(images(before).len() >= images(then).len());
            assert(written_at_image(now, index) == written_at_image(before, index));
        }
    } else {
        assert(now =~= then);
        assert(images(then) =~= images(then).subrange(0, images(then).len() as int));
    }
}

/// Two operations in a row that each write only to an idle chip do so
/// together.
pub proof fn lemma_writes_chain(
    then: Seq<Transaction>,
    between: Seq<Transaction>,
    now: Seq<Transaction>,
)
    requires
        then.is_prefix_of(between),
        between.is_prefix_of(now),
        writes_when_idle(then, between),
        writes_when_idle(between, now),
    ensures
        writes_when_idle(then, now),
{
    assert forall|i: int| then.len() <= i < now.len() && (#[trigger] now[i]) is Write implies i
        > then.len() && (now[i - 1].shows_idle() || now[i - 1] is Write) by {
        if i < between.len() {
            assert(now[i] == between[i]);
            assert(now[i - 1] == between[i - 1]);
        }
    }
}

/// Two operations in a row that each issue only polls and writes, and
/// stop where they find the chip busy, do so together, if the first left
/// the chip idle.
pub proof fn lemma_commands_chain(
    then: Seq<Transaction>,
    between: Seq<Transaction>,
    now: Seq<Transaction>,
)
    requires
        then.is_prefix_of(between),
        between.is_prefix_of(now),
        only_commands(then, between),
        only_commands(between, now),
        stops_when_busy(then, between),
        stops_when_busy(between, now),
        left_idle(then, between),
    ensures
        only_commands(then, now),
        stops_when_busy(then, now),
{
    lemma_writes_chain(then, between, now);
    assert forall|i: int| then.len() <= i < now.len() implies (#[trigger] now[i]).is_poll()
        || now[i] is Write by {
        if i < between.len() {
            assert(now[i] == between[i]);
        }
    }
    assert forall|i: int|
        then.len() <= i < now.len() - 1 && (#[trigger] now[i]).shows_busy() implies i > then.len()
            && (now[i - 1] is Write || now[i - 1].shows_busy()) by {
        if i < between.len() {
            assert(now[i] == between[i]);
            if i > then.len() {
                assert(now[i - 1] == between[i - 1]);
            }
        } else if i > between.len() {
        } else {
            if between.len() > then.len() {
                assert(now[i - 1] == between[i - 1]);
            }
        }
    }
}

/// Two operations in a row that each issue only polls, writes to an idle
/// chip and reads of memory after an idle poll do so together.
pub proof fn lemma_traffic_chain(
    then: Seq<Transaction>,
    between: Seq<Transaction>,
    now: Seq<Transaction>,
)
    requires
        then.is_prefix_of(between),
        between.is_prefix_of(now),
        only_traffic(then, between),
        only_traffic(between, now),
    ensures
        only_traffic(then, now),
{
    lemma_writes_chain(then, between, now);
    assert forall|i: int| then.len() <= i < now.len() implies (#[trigger] now[i]).is_poll()
        || now[i] is Write || now[i].is_fetch() by {
        if i < between.len() {
            assert(now[i] == between[i]);
        }
    }
    assert forall|i: int|
        then.len() <= i < now.len() && (#[trigger] now[i]).is_fetch() implies i > then.len()
            && now[i - 1].shows_idle() by {
        if i < between.len() {
            assert(now[i] == between[i]);
            assert(now[i - 1] == between[i - 1]);
        }
    }
}

/// An operation that issues only polls and writes to an idle chip issues
/// only polls, such writes and reads of memory after an idle poll.
pub proof fn lemma_commands_are_traffic(then: Seq<Transaction>, now: Seq<Transaction>)
    requires
        only_commands(then, now),
    ensures
        only_traffic(then, now),
{
    assert forall|i: int|
        then.len() <= i < now.len() && (#[trigger] now[i]).is_fetch() implies i > then.len()
            && now[i - 1].shows_idle() by {
        assert(now[i].is_poll() || now[i] is Write);
    }
}

} // verus!
