//! CRC-32, the one everything else calls CRC-32: IEEE 802.3, reflected,
//! polynomial `0xEDB88320`, the one `gzip`, `zip` and `cksum -a crc32` all
//! produce. It catches a disk that wrote different bytes; it is not a
//! security property.

use vstd::prelude::*;

verus! {

/// One of the eight shifts a byte goes through.
pub open spec fn crc_round(acc: u32) -> u32 {
    if acc & 1u32 == 1u32 {
        (acc >> 1u32) ^ 0xEDB8_8320u32
    } else {
        acc >> 1u32
    }
}

/// `k` shifts.
pub open spec fn crc_rounds(acc: u32, k: nat) -> u32
    decreases k,
{
    if k == 0 {
        acc
    } else {
        crc_rounds(crc_round(acc), (k - 1) as nat)
    }
}

/// The running value after one more byte.
pub open spec fn crc_byte(state: u32, b: u8) -> u32 {
    crc_rounds((state ^ (b as u32)) & 0xFFu32, 8) ^ (state >> 8u32)
}

/// The running value after some bytes, one at a time.
pub open spec fn crc_fold(state: u32, bytes: Seq<u8>) -> u32
    decreases bytes.len(),
{
    if bytes.len() == 0 {
        state
    } else {
        crc_byte(crc_fold(state, bytes.drop_last()), bytes.last())
    }
}

/// The CRC-32 of some bytes.
pub open spec fn crc32(bytes: Seq<u8>) -> u32 {
    crc_fold(0xFFFF_FFFFu32, bytes) ^ 0xFFFF_FFFFu32
}

/// A running CRC-32.
#[derive(Debug, Clone, Copy)]
pub struct Crc32(u32);

impl Crc32 {
    /// The running value.
    pub closed spec fn state(&self) -> u32 {
        self.0
    }

    /// A fresh checksum.
    pub fn new() -> (r: Self)
        ensures
            r.state() == 0xFFFF_FFFFu32,
    {
        Crc32(0xFFFF_FFFF)
    }

    /// Fold `bytes` in.
    pub fn update(&mut self, bytes: &[u8])
        ensures
            final(self).state() == crc_fold(old(self).state(), bytes@),
    {
        let mut i: usize = 0;
        while i < bytes.len()
            invariant
                i <= bytes@.len(),
                self.0 == crc_fold(old(self).state(), bytes@.take(i as int)),
            decreases bytes.len() - i,
        {
            let state = self.0;
            let mut acc = (state ^ (bytes[i] as u32)) & 0xFF;
            let mut k: usize = 0;
            while k < 8
                invariant
                    k <= 8,
                    crc_rounds((state ^ (bytes@[i as int] as u32)) & 0xFFu32, 8) == crc_rounds(
                        acc,
                        (8 - k) as nat,
                    ),
                decreases 8 - k,
            {
                acc = if acc & 1 == 1 {
                    (acc >> 1) ^ 0xEDB8_8320
                } else {
                    acc >> 1
                };
                k += 1;
            }
            self.0 = acc ^ (state >> 8);
            proof {
                assert(bytes@.take(i + 1).drop_last() =~= bytes@.take(i as int));
                assert(bytes@.take(i + 1).last() == bytes@[i as int]);
            }
            i += 1;
        }
        proof {
            assert(bytes@.take(i as int) =~= bytes@);
        }
    }

    /// The finished value.
    pub fn finish(self) -> (r: u32)
        ensures
            r == self.state() ^ 0xFFFF_FFFFu32,
    {
        self.0 ^ 0xFFFF_FFFF
    }

    /// The checksum of one slice.
    pub fn of(bytes: &[u8]) -> (r: u32)
        ensures
            r == crc32(bytes@),
    {
        let mut crc = Self::new();
        crc.update(bytes);
        crc.finish()
    }
}

impl Default for Crc32 {
    /// A fresh checksum.
    fn default() -> (r: Self)
        ensures
            r.state() == 0xFFFF_FFFFu32,
    {
        Crc32::new()
    }
}

/// Feeding bytes in pieces gives what feeding them at once does: the image
/// is checksummed a chunk at a time, and this is what that rests on.
pub proof fn law_crc_piecewise(state: u32, a: Seq<u8>, b: Seq<u8>)
    ensures
        crc_fold(crc_fold(state, a), b) == crc_fold(state, a + b),
    decreases b.len(),
{
    if b.len() == 0 {
        assert(a + b =~= a);
    } else {
        law_crc_piecewise(state, a, b.drop_last());
        assert((a + b).drop_last() =~= a + b.drop_last());
        assert((a + b).last() == b.last());
    }
}

} // verus!
