//! What a program command can reach.
//!
//! Programming a byte clears bits of it and sets none: a byte of flash that
//! holds `current` can be programmed to `new` only where every bit that is
//! set in `new` is set in `current`. Only an erase sets bits.

use crate::flash_params::SECTOR_SIZE;
use vstd::prelude::*;

verus! {

/// Whether a byte that holds `current` can be programmed to hold `new`.
pub open spec fn reachable(new: u8, current: u8) -> bool {
    new & current == new
}

/// Whether flash that holds `current` can be programmed to hold `new` in
/// its first `new.len()` bytes.
pub open spec fn programmable(new: Seq<u8>, current: Seq<u8>) -> bool {
    &&& new.len() <= current.len()
    &&& forall|i: int| 0 <= i < new.len() ==> reachable(#[trigger] new[i], current[i])
}

/// The image of a region with `piece` laid over it from position `at`.
pub open spec fn overlaid(image: Seq<u8>, at: int, piece: Seq<u8>) -> Seq<u8> {
    Seq::new(
        image.len(),
        |i: int|
            if at <= i < at + piece.len() {
                piece[i - at]
            } else {
                image[i]
            },
    )
}

/// Every value can be programmed over itself.
pub proof fn lemma_reachable_is_reflexive(value: u8)
    ensures
        reachable(value, value),
{
    assert(value & value == value) by (bit_vector);
}

/// Zero can be programmed over every value.
pub proof fn lemma_zero_is_reachable(current: u8)
    ensures
        reachable(0, current),
{
    assert(0u8 & current == 0u8) by (bit_vector);
}

/// All ones can be programmed over all ones and over nothing else.
pub proof fn lemma_ones_need_ones(current: u8)
    ensures
        reachable(0xFF, current) <==> current == 0xFF,
{
    assert((0xFFu8 & current == 0xFFu8) <==> current == 0xFFu8) by (bit_vector);
}

/// Every value can be programmed over all ones, the state after an erase.
pub proof fn lemma_erased_takes_all(new: u8)
    ensures
        reachable(new, 0xFF),
{
    assert(new & 0xFFu8 == new) by (bit_vector);
}

/// What can be programmed over a value that was itself programmed over
/// `current` can be programmed over `current`.
pub proof fn lemma_reachable_is_transitive(new: u8, between: u8, current: u8)
    requires
        reachable(new, between),
        reachable(between, current),
    ensures
        reachable(new, current),
{
    assert(new & current == new) by (bit_vector)
        requires
            new & between == new,
            between & current == between,
    ;
}

/// Data can be programmed over itself; zeroes over anything as long; all
/// ones only over all ones.
pub proof fn lemma_programmable(data: Seq<u8>, current: Seq<u8>)
    requires
        data.len() <= current.len(),
    ensures
        programmable(data, data),
        (forall|i: int| 0 <= i < data.len() ==> data[i] == 0) ==> programmable(data, current),
        (forall|i: int| 0 <= i < data.len() ==> data[i] == 0xFF) ==> (programmable(data, current)
            <==> forall|i: int| 0 <= i < data.len() ==> current[i] == 0xFF),
{
    assert forall|i: int| 0 <= i < data.len() implies reachable(#[trigger] data[i], data[i]) by {
        lemma_reachable_is_reflexive(data[i]);
    }
    if forall|i: int| 0 <= i < data.len() ==> data[i] == 0 {
        assert forall|i: int| 0 <= i < data.len() implies reachable(
            #[trigger] data[i],
            current[i],
        ) by {
            lemma_zero_is_reachable(current[i]);
        }
    }
    if forall|i: int| 0 <= i < data.len() ==> data[i] == 0xFF {
        if programmable(data, current) {
            assert forall|i: int| 0 <= i < data.len() implies current[i] == 0xFF by {
                assert(reachable(data[i], current[i]));
                lemma_ones_need_ones(current[i]);
            }
        }
        if forall|i: int| 0 <= i < data.len() ==> current[i] == 0xFF {
            assert forall|i: int| 0 <= i < data.len() implies reachable(
                #[trigger] data[i],
                current[i],
            ) by {
                lemma_ones_need_ones(current[i]);
            }
        }
    }
}

/// Whether `new` can be programmed over `current` without an erase.
pub fn is_subset_of(new: &[u8], current: &[u8]) -> (fits: bool)
    ensures
        fits == programmable(new@, current@),
{
    if new.len() > current.len() {
        return false;
    }
    let mut i: usize = 0;
    while i < new.len()
        invariant
            i <= new.len() <= current.len(),
            forall|j: int| 0 <= j < i ==> reachable(#[trigger] new@[j], current@[j]),
        decreases new.len() - i,
    {
        if new[i] & current[i] != new[i] {
            assert(!reachable(new@[i as int], current@[i as int]));
            return false;
        }
        i = i + 1;
    }
    true
}

/// Lay `piece` over the image of a sector from position `at`. The bytes
/// outside of the piece stay as they are.
pub fn overlay(image: &mut [u8; 4096], at: usize, piece: &[u8])
    requires
        at + piece.len() <= SECTOR_SIZE,
    ensures
        final(image)@ == overlaid(old(image)@, at as int, piece@),
{
    let mut i: usize = 0;
    while i < piece.len()
        invariant
            i <= piece.len(),
            at + piece.len() <= SECTOR_SIZE,
            image@.len() == 4096,
            forall|k: int|
                0 <= k < 4096 ==> image@[k] == if at <= k < at + i {
                    piece@[k - at]
                } else {
                    old(image)@[k]
                },
        decreases piece.len() - i,
    {
        image[at + i] = piece[i];
        i = i + 1;
    }
    assert(image@ =~= overlaid(old(image)@, at as int, piece@));
}

} // verus!
