//! CRC-32 with the reflected polynomial 0xEDB88320 (ISO 3309, as zlib and PNG use it).
use vstd::prelude::*;

verus! {

pub const CRC32_POLYNOMIAL: u32 = 0xEDB88320;

/// One shift of the bitwise CRC division.
pub open spec fn crc_shift(acc: u32) -> u32 {
    if acc & 1 != 0 {
        CRC32_POLYNOMIAL ^ (acc >> 1)
    } else {
        acc >> 1
    }
}

/// `crc_shift` applied `k` times.
pub open spec fn crc_shifts(acc: u32, k: nat) -> u32
    decreases k,
{
    if k == 0 {
        acc
    } else {
        crc_shift(crc_shifts(acc, (k - 1) as nat))
    }
}

/// Entry `i` of the byte-at-a-time lookup table.
pub open spec fn crc_table_entry(i: u32) -> u32 {
    crc_shifts(i, 8)
}

/// The register after folding `bytes` into `acc`, one byte at a time.
pub open spec fn crc_fold(acc: u32, bytes: Seq<u8>) -> u32
    decreases bytes.len(),
{
    if bytes.len() == 0 {
        acc
    } else {
        let prev = crc_fold(acc, bytes.drop_last());
        crc_table_entry((prev ^ (bytes.last() as u32)) & 0xFF) ^ (prev >> 8)
    }
}

/// The CRC-32 of `bytes`.
pub open spec fn crc32(bytes: Seq<u8>) -> u32 {
    crc_fold(0xFFFF_FFFF, bytes) ^ 0xFFFF_FFFF
}

/// A running CRC-32 computation.
pub struct Crc32 {
    table: Vec<u32>,
    value: u32,
}

impl Crc32 {
    /// The lookup table is complete and correct.
    pub closed spec fn wf(&self) -> bool {
        &&& self.table@.len() == 256
        &&& forall|i: int| 0 <= i < 256 ==> #[trigger] self.table@[i] == crc_table_entry(i as u32)
    }

    /// The register, before the final inversion.
    pub closed spec fn register(&self) -> u32 {
        self.value
    }

    /// A computation over no bytes yet.
    pub fn new() -> (crc: Crc32)
        ensures
            crc.wf(),
            crc.register() == 0xFFFF_FFFF,
    {
        let mut table: Vec<u32> = Vec::with_capacity(256);
        let mut i: u32 = 0;
        while i < 256
            invariant
                i <= 256,
                table@.len() == i,
                forall|j: int| 0 <= j < i ==> #[trigger] table@[j] == crc_table_entry(j as u32),
            decreases 256 - i,
        {
            let mut acc: u32 = i;
            let mut k: u32 = 0;
            while k < 8
                invariant
                    k <= 8,
                    acc == crc_shifts(i, k as nat),
                decreases 8 - k,
            {
                acc = if acc & 1 != 0 {
                    CRC32_POLYNOMIAL ^ (acc >> 1)
                } else {
                    acc >> 1
                };
                k = k + 1;
            }
            table.push(acc);
            i = i + 1;
        }
        Crc32 { table, value: 0xFFFF_FFFF }
    }

    /// A computation that has folded in `bytes`.
    pub fn from(bytes: &[u8]) -> (crc: Crc32)
        ensures
            crc.wf(),
            crc.register() == crc_fold(0xFFFF_FFFF, bytes@),
            crc.register() ^ 0xFFFF_FFFF == crc32(bytes@),
    {
        let mut crc: Crc32 = Crc32::new();
        crc.update(bytes);
        crc
    }

    /// Folds `bytes` into the register.
    pub fn update(&mut self, bytes: &[u8])
        requires
            old(self).wf(),
        ensures
            final(self).wf(),
            final(self).register() == crc_fold(old(self).register(), bytes@),
    {
        let start: Ghost<u32> = Ghost(self.value);
        let mut i: usize = 0;
        while i < bytes.len()
            invariant
                self.wf(),
                i <= bytes@.len(),
                self.value == crc_fold(start@, bytes@.subrange(0, i as int)),
            decreases bytes@.len() - i,
        {
            let acc = self.value;
            let byte: u32 = bytes[i] as u32;
            let idx: u32 = (acc ^ byte) & 0xFF;
            assert(idx < 256) by (bit_vector)
                requires
                    idx == (acc ^ byte) & 0xFF,
            ;
            self.value = self.table[idx as usize] ^ (acc >> 8);
            proof {
                let next = bytes@.subrange(0, i + 1);
                assert(next.drop_last() =~= bytes@.subrange(0, i as int));
            }
            i = i + 1;
        }
        assert(bytes@.subrange(0, bytes@.len() as int) =~= bytes@);
    }

    /// The checksum of everything folded in so far.
    pub fn fin(&mut self) -> (r: u32)
        ensures
            *final(self) == *old(self),
            r == old(self).register() ^ 0xFFFF_FFFF,
    {
        self.value ^ 0xFFFF_FFFF
    }
}

} // verus!
