//! The chip's status register.

use vstd::prelude::*;

verus! {

/// Write in progress.
pub const WIP: u8 = 0x01;

/// Write enable latch.
pub const WEL: u8 = 0x02;

/// Quad enable.
pub const QE: u8 = 0x40;

/// Status register write disable.
pub const SRWD: u8 = 0x80;

/// One reading of the status register. It tells what the chip was doing when
/// it was read, so it is read anew whenever it is needed.
pub struct Status(pub u8);

impl From<u8> for Status {
    fn from(v: u8) -> (status: Status) {
        Status(v)
    }
}

impl vstd::std_specs::convert::FromSpecImpl<u8> for Status {
    open spec fn obeys_from_spec() -> bool {
        true
    }

    open spec fn from_spec(v: u8) -> Status {
        Status(v)
    }
}

impl Status {
    /// Whether the write-in-progress bit is set.
    pub open spec fn busy(self) -> bool {
        self.0 & WIP != 0
    }

    /// Write In Progress Bit:
    /// - "0" indicates the device is ready (default)
    /// - "1" indicates a write cycle is in progress and the device is busy
    pub fn wip(&self) -> (set: bool)
        ensures
            set == self.busy(),
            set == (self.0 & 0x01 != 0),
    {
        self.0 & WIP != 0
    }

    /// Write Enable Latch:
    /// - "0" indicates the device is not write enabled (default)
    /// - "1" indicates the device is write enabled
    pub fn wel(&self) -> (set: bool)
        ensures
            set == (self.0 & 0x02 != 0),
    {
        self.0 & WEL != 0
    }

    /// Block Protection Bits. They are not decoded: every block is reported
    /// as not write-protected, whatever the register holds.
    pub fn bp(&self) -> (protected: bool)
        ensures
            !protected,
    {
        false
    }

    /// Quad Enable bit:
    /// - "0" indicates the Quad output function disable (default)
    /// - "1" indicates the Quad output function enable
    pub fn qe(&self) -> (set: bool)
        ensures
            set == (self.0 & 0x40 != 0),
    {
        self.0 & QE != 0
    }

    /// Status Register Write Disable:
    /// - "0" indicates the Status Register is not write-protected (default)
    /// - "1" indicates the Status Register is write-protected
    pub fn srwd(&self) -> (set: bool)
        ensures
            set == (self.0 & 0x80 != 0),
    {
        self.0 & SRWD != 0
    }
}

/// The four conditions are independent: each is decided by one bit of the
/// register, and setting or clearing the other bits does not change it.
pub proof fn lemma_bits_are_independent(raw: u8, other: u8)
    ensures
        (raw & 0x01 != 0) == ((raw ^ (other & 0xfe)) & 0x01 != 0),
        (raw & 0x02 != 0) == ((raw ^ (other & 0xfd)) & 0x02 != 0),
        (raw & 0x40 != 0) == ((raw ^ (other & 0xbf)) & 0x40 != 0),
        (raw & 0x80 != 0) == ((raw ^ (other & 0x7f)) & 0x80 != 0),
{
    assert((raw & 0x01 != 0) == ((raw ^ (other & 0xfe)) & 0x01 != 0)) by (bit_vector);
    assert((raw & 0x02 != 0) == ((raw ^ (other & 0xfd)) & 0x02 != 0)) by (bit_vector);
    assert((raw & 0x40 != 0) == ((raw ^ (other & 0xbf)) & 0x40 != 0)) by (bit_vector);
    assert((raw & 0x80 != 0) == ((raw ^ (other & 0x7f)) & 0x80 != 0)) by (bit_vector);
}

} // verus!
