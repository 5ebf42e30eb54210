//! Operations that run one after the other, two frames at a time.
//!
//! Programming a range and erasing a range are sequences of single
//! commands, each of which polls the status register, enables writing,
//! issues its command and waits for the chip. What the record of the whole
//! looks like is what the records of the single commands look like, one
//! after the other.

use crate::bus::{ended, Transaction};
use crate::commands::WriteFrame;
use crate::outcomes::commanded;
use crate::Error;
use vstd::prelude::*;

verus! {

/// The first `cut` transactions of `record`.
pub open spec fn upto(record: Seq<Transaction>, cut: int) -> Seq<Transaction> {
    record.take(cut)
}

/// Whether the record from `then` to `now` is that of one command for
/// every two frames of `plan`, in the order of `plan`, each of which ran as
/// `commanded` says and succeeded.
///
/// The definition stays folded in proofs until it is revealed.
#[verifier::opaque]
pub open spec fn commanded_each(
    then: Seq<Transaction>,
    now: Seq<Transaction>,
    plan: Seq<WriteFrame>,
) -> bool
    decreases plan.len(),
{
    if plan.len() < 2 {
        plan.len() == 0 && now == then
    } else {
        exists|cut: int|
            #![trigger upto(now, cut)]
            then.len() <= cut <= now.len() && commanded_each(
                then,
                upto(now, cut),
                plan.take(plan.len() - 2),
            ) && commanded(upto(now, cut), now, plan.skip(plan.len() - 2), Ok(()))
    }
}

/// Whether the record from `then` to `now` is that of one command for
/// every two frames of the first part of `plan`, each of which ran as
/// `commanded` says and succeeded, and of one more for the next two frames,
/// which failed with `fault`.
///
/// The definition stays folded in proofs until it is revealed.
#[verifier::opaque]
pub open spec fn commanded_until(
    then: Seq<Transaction>,
    now: Seq<Transaction>,
    plan: Seq<WriteFrame>,
    fault: Error,
) -> bool {
    exists|done: int, cut: int|
        #![trigger upto(now, cut), plan.take(done)]
        0 <= done && done + 2 <= plan.len() && then.len() <= cut <= now.len()
            && commanded_each(then, upto(now, cut), plan.take(done)) && commanded(
            upto(now, cut),
            now,
            plan.subrange(done, done + 2),
            Err(fault),
        )
}

/// Whether the record from `then` to `now` is that of the commands of
/// `plan`, two frames each, one after the other up to the first that
/// failed, and of all of them if none did.
pub open spec fn commanded_in_turn(
    then: Seq<Transaction>,
    now: Seq<Transaction>,
    plan: Seq<WriteFrame>,
    r: Result<(), Error>,
) -> bool {
    match r {
        Ok(()) => commanded_each(then, now, plan),
        Err(fault) => commanded_until(then, now, plan, fault),
    }
}

/// Commands that ran one after the other only added to the record, and the
/// bus accepted all they did.
pub proof fn lemma_each_has_ended(
    then: Seq<Transaction>,
    now: Seq<Transaction>,
    plan: Seq<WriteFrame>,
)
    requires
        commanded_each(then, now, plan),
    ensures
        ended(then, now, None),
    decreases plan.len(),
{
    reveal(commanded_each);
    reveal(commanded_until);
    if plan.len() < 2 {
        crate::bus::lemma_ended_nothing(then);
    } else {
        let cut = choose|cut: int|
            #![trigger upto(now, cut)]
            then.len() <= cut <= now.len() && commanded_each(
                then,
                upto(now, cut),
                plan.take(plan.len() - 2),
            ) && commanded(upto(now, cut), now, plan.skip(plan.len() - 2), Ok(()));
        lemma_each_has_ended(then, upto(now, cut), plan.take(plan.len() - 2));
        crate::bus::lemma_ended_chain(then, upto(now, cut), now, None);
    }
}

/// Where nothing was to be done and nothing was done, all commands ran.
pub proof fn lemma_none_in_turn(then: Seq<Transaction>)
    ensures
        commanded_each(then, then, Seq::empty()),
{
    reveal(commanded_each);
}

/// One command is a sequence of one.
pub proof fn lemma_one_in_turn(
    then: Seq<Transaction>,
    now: Seq<Transaction>,
    step: Seq<WriteFrame>,
    r: Result<(), Error>,
)
    requires
        step.len() == 2,
        commanded(then, now, step, r),
    ensures
        commanded_in_turn(then, now, step, r),
{
    reveal(commanded_each);
    reveal(commanded_until);
    let cut = then.len() as int;
    assert(upto(now, cut) =~= then);
    assert(step.take(0) =~= Seq::<WriteFrame>::empty());
    assert(step.skip(0) =~= step);
    assert(step.subrange(0, 2) =~= step);
    assert(commanded_each(then, upto(now, cut), step.take(0)));
}

/// Commands that ran one after the other, and then more of them, ran one
/// after the other.
pub proof fn lemma_each_chain(
    then: Seq<Transaction>,
    between: Seq<Transaction>,
    now: Seq<Transaction>,
    first: Seq<WriteFrame>,
    second: Seq<WriteFrame>,
)
    requires
        commanded_each(then, between, first),
        commanded_each(between, now, second),
    ensures
        commanded_each(then, now, first + second),
    decreases second.len(),
{
    reveal(commanded_each);
    reveal(commanded_until);
    if second.len() < 2 {
        assert(first + second =~= first);
    } else {
        let cut = choose|cut: int|
            #![trigger upto(now, cut)]
            between.len() <= cut <= now.len() && commanded_each(
                between,
                upto(now, cut),
                second.take(second.len() - 2),
            ) && commanded(upto(now, cut), now, second.skip(second.len() - 2), Ok(()));
        let whole = first + second;
        lemma_each_chain(then, between, upto(now, cut), first, second.take(second.len() - 2));
        lemma_each_has_ended(then, between, first);
        assert(whole.take(whole.len() - 2) =~= first + second.take(second.len() - 2));
        assert(whole.skip(whole.len() - 2) =~= second.skip(second.len() - 2));
        assert(commanded_each(then, upto(now, cut), whole.take(whole.len() - 2)));
    }
}

/// Commands that ran one after the other, and then more of them up to one
/// that failed, ran one after the other up to one that failed.
pub proof fn lemma_until_chain(
    then: Seq<Transaction>,
    between: Seq<Transaction>,
    now: Seq<Transaction>,
    first: Seq<WriteFrame>,
    second: Seq<WriteFrame>,
    fault: Error,
)
    requires
        commanded_each(then, between, first),
        commanded_until(between, now, second, fault),
    ensures
        commanded_until(then, now, first + second, fault),
{
    reveal(commanded_each);
    reveal(commanded_until);
    let (done, cut) = choose|done: int, cut: int|
        #![trigger upto(now, cut), second.take(done)]
        0 <= done && done + 2 <= second.len() && between.len() <= cut <= now.len()
            && commanded_each(between, upto(now, cut), second.take(done)) && commanded(
            upto(now, cut),
            now,
            second.subrange(done, done + 2),
            Err(fault),
        );
    let whole = first + second;
    let sofar = first.len() + done;
    let before = upto(now, cut);
    let step = second.subrange(done, done + 2);
    lemma_each_chain(then, between, before, first, second.take(done));
    assert(then.len() <= cut) by {
        lemma_each_has_ended(then, between, first);
    }
    assert(whole.take(sofar) == first + second.take(done)) by {
        assert(whole.take(sofar) =~= first + second.take(done));
    }
    assert(whole.subrange(sofar, sofar + 2) == step) by {
        assert(whole.subrange(sofar, sofar + 2) =~= step);
    }
    assert(0 <= sofar && sofar + 2 <= whole.len());
    assert(commanded_each(then, upto(now, cut), whole.take(sofar)));
    assert(commanded(upto(now, cut), now, whole.subrange(sofar, sofar + 2), Err(fault)));
}

/// Commands that ran one after the other, and then more of them up to the
/// first that failed, ran one after the other up to the first that failed.
pub proof fn lemma_in_turn_chain(
    then: Seq<Transaction>,
    between: Seq<Transaction>,
    now: Seq<Transaction>,
    first: Seq<WriteFrame>,
    second: Seq<WriteFrame>,
    r: Result<(), Error>,
)
    requires
        commanded_each(then, between, first),
        commanded_in_turn(between, now, second, r),
    ensures
        commanded_in_turn(then, now, first + second, r),
{
    match r {
        Ok(()) => {
            lemma_each_chain(then, between, now, first, second);
        },
        Err(fault) => {
            lemma_until_chain(then, between, now, first, second, fault);
        },
    }
}

/// Commands that failed before the end of their plan failed before the end
/// of any longer plan.
pub proof fn lemma_in_turn_widen(
    then: Seq<Transaction>,
    now: Seq<Transaction>,
    plan: Seq<WriteFrame>,
    rest: Seq<WriteFrame>,
    fault: Error,
)
    requires
        commanded_until(then, now, plan, fault),
    ensures
        commanded_until(then, now, plan + rest, fault),
{
    reveal(commanded_each);
    reveal(commanded_until);
    let (done, cut) = choose|done: int, cut: int|
        #![trigger upto(now, cut), plan.take(done)]
        0 <= done && done + 2 <= plan.len() && then.len() <= cut <= now.len()
            && commanded_each(then, upto(now, cut), plan.take(done)) && commanded(
            upto(now, cut),
            now,
            plan.subrange(done, done + 2),
            Err(fault),
        );
    let whole = plan + rest;
    assert(whole.take(done) =~= plan.take(done));
    assert(whole.subrange(done, done + 2) =~= plan.subrange(done, done + 2));
    assert(commanded_each(then, upto(now, cut), whole.take(done)));
}

/// What one more command adds to commands that ran one after the other:
/// if it succeeded they all did, and if it failed they ran up to the first
/// that failed, of the plan so far and of any longer plan.
pub proof fn lemma_in_turn_step(
    then: Seq<Transaction>,
    between: Seq<Transaction>,
    now: Seq<Transaction>,
    sent: Seq<WriteFrame>,
    step: Seq<WriteFrame>,
    rest: Seq<WriteFrame>,
    r: Result<(), Error>,
)
    requires
        commanded_each(then, between, sent),
        step.len() == 2,
        commanded(between, now, step, r),
    ensures
        r is Ok ==> commanded_each(then, now, sent + step),
        commanded_in_turn(then, now, sent + step, r),
        r is Err ==> commanded_in_turn(then, now, (sent + step) + rest, r),
{
    lemma_one_in_turn(between, now, step, r);
    lemma_in_turn_chain(then, between, now, sent, step, r);
    match r {
        Ok(()) => {},
        Err(fault) => {
            lemma_in_turn_widen(then, now, sent + step, rest, fault);
        },
    }
}

} // verus!
