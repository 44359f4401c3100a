//! CRC-8 over the frame's length byte and payload.
//!
//! The checksum is an 8-bit CRC kept in the high byte of a 16-bit working
//! state: each input byte is XORed into the high byte, then the state is run
//! through eight shift-and-XOR steps with the polynomial constant
//! `0x1070 << 3`, and the high byte of the final state is the checksum.

use vstd::prelude::*;

verus! {

/// One shift-and-XOR step of the CRC state machine.
pub open spec fn crc_shift(s: u16) -> u16 {
    if s & 0x8000 != 0 {
        (s ^ (0x1070u16 << 3)) << 1
    } else {
        s << 1
    }
}

/// `n` consecutive shift-and-XOR steps.
pub open spec fn crc_shifts(s: u16, n: nat) -> u16
    decreases n,
{
    if n == 0 {
        s
    } else {
        crc_shift(crc_shifts(s, (n - 1) as nat))
    }
}

/// The CRC state after absorbing one byte: XOR it into the high byte,
/// then take eight shift-and-XOR steps.
pub open spec fn crc_step(s: u16, byte: u8) -> u16 {
    crc_shifts(s ^ ((byte as u16) << 8), 8)
}

/// The CRC state after absorbing a whole byte sequence, starting from 0.
pub open spec fn crc_state(bytes: Seq<u8>) -> u16
    decreases bytes.len(),
{
    if bytes.len() == 0 {
        0u16
    } else {
        crc_step(crc_state(bytes.drop_last()), bytes.last())
    }
}

/// The checksum of a byte sequence: the high byte of the final state.
pub open spec fn crc8(bytes: Seq<u8>) -> u8 {
    (crc_state(bytes) >> 8) as u8
}

/// Incremental CRC-8 calculator.
pub struct Crc8 {
    crc: u16,
}

impl Crc8 {
    /// The current working state.
    pub closed spec fn state(self) -> u16 {
        self.crc
    }

    /// A fresh calculator, in the initial state.
    pub fn new() -> (r: Crc8)
        ensures
            r.state() == 0,
    {
        Crc8 { crc: 0 }
    }

    /// Absorb one byte into the state.
    pub fn add_byte(&mut self, byte: u8)
        ensures
            final(self).state() == crc_step(old(self).state(), byte),
    {
        self.crc = self.crc ^ ((byte as u16) << 8);
        let ghost s0: u16 = self.crc;
        let mut i: usize = 0;
        while i < 8
            invariant
                i <= 8,
                self.crc == crc_shifts(s0, i as nat),
            decreases 8 - i,
        {
            if self.crc & 0x8000 != 0 {
                self.crc = self.crc ^ (0x1070u16 << 3);
            }
            self.crc = self.crc << 1;
            i = i + 1;
        }
    }

    /// The checksum for everything absorbed so far.
    pub fn finish(self) -> (r: u8)
        ensures
            r == (self.state() >> 8) as u8,
    {
        (self.crc >> 8) as u8
    }
}

/// Computing the checksum of the same bytes always gives the same result:
/// `crc8` is a pure function of the byte sequence alone.
pub proof fn lemma_crc8_deterministic(b1: Seq<u8>, b2: Seq<u8>)
    requires
        b1 == b2,
    ensures
        crc8(b1) == crc8(b2),
{
}

} // verus!
