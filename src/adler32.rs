//! Adler-32 (RFC 1950, section 8.2).
use vstd::arithmetic::div_mod::{lemma_add_mod_noop, lemma_small_mod};
use vstd::prelude::*;

verus! {

pub const ADLER_MOD: u32 = 0xFFF1;

/// The two sums after folding `bytes` into the sums `(a, b)`.
pub open spec fn adler_fold(a: nat, b: nat, bytes: Seq<u8>) -> (nat, nat)
    decreases bytes.len(),
{
    if bytes.len() == 0 {
        (a, b)
    } else {
        let (pa, pb) = adler_fold(a, b, bytes.drop_last());
        let na = ((pa + bytes.last()) as int % ADLER_MOD as int) as nat;
        (na, ((pb + na) as int % ADLER_MOD as int) as nat)
    }
}

/// The checksum that the sums `(a, b)` give.
pub open spec fn adler_value(sums: (nat, nat)) -> nat {
    sums.1 * 0x1_0000 + sums.0
}

/// The Adler-32 of `bytes`.
pub open spec fn adler32(bytes: Seq<u8>) -> nat {
    adler_value(adler_fold(1, 0, bytes))
}

/// A running Adler-32 computation.
pub struct Adler32 {
    a: u32,
    b: u32,
}

impl Adler32 {
    /// Both sums are reduced.
    pub closed spec fn wf(&self) -> bool {
        self.a < ADLER_MOD && self.b < ADLER_MOD
    }

    /// The two sums `(a, b)`.
    pub closed spec fn sums(&self) -> (nat, nat) {
        (self.a as nat, self.b as nat)
    }

    /// A computation over no bytes yet.
    pub fn new() -> (r: Adler32)
        ensures
            r.wf(),
            r.sums() == (1nat, 0nat),
    {
        Adler32 { a: 1, b: 0 }
    }

    /// Folds `bytes` into the sums.
    pub fn update(&mut self, bytes: &[u8])
        requires
            old(self).wf(),
        ensures
            final(self).wf(),
            final(self).sums() == adler_fold(old(self).sums().0, old(self).sums().1, bytes@),
    {
        let a0: Ghost<nat> = Ghost(self.a as nat);
        let b0: Ghost<nat> = Ghost(self.b as nat);
        let mut i: usize = 0;
        while i < bytes.len()
            invariant
                self.wf(),
                i <= bytes@.len(),
                self.sums() == adler_fold(a0@, b0@, bytes@.subrange(0, i as int)),
            decreases bytes@.len() - i,
        {
            self.a = (self.a + bytes[i] as u32) % ADLER_MOD;
            self.b = (self.b + self.a) % ADLER_MOD;
            proof {
                let next = bytes@.subrange(0, i + 1);
                assert(next.drop_last() =~= bytes@.subrange(0, i as int));
            }
            i = i + 1;
        }
        assert(bytes@.subrange(0, bytes@.len() as int) =~= bytes@);
    }

    /// A computation that has folded in `bytes`.
    pub fn from(bytes: &[u8]) -> (r: Adler32)
        ensures
            r.wf(),
            r.sums() == adler_fold(1, 0, bytes@),
            adler_value(r.sums()) == adler32(bytes@),
    {
        let mut temp: Adler32 = Adler32::new();
        temp.update(bytes);
        temp
    }

    /// The checksum of everything folded in so far.
    pub fn fin(&self) -> (r: u32)
        requires
            self.wf(),
        ensures
            r == adler_value(self.sums()),
    {
        let a = self.a;
        let b = self.b;
        assert((b << 16) | a == b * 0x1_0000 + a) by (bit_vector)
            requires
                a < 0xFFF1,
                b < 0xFFF1,
        ;
        (b << 16) | a
    }
}

/// The sum of the bytes of `s`.
pub open spec fn byte_sum(s: Seq<u8>) -> nat
    decreases s.len(),
{
    if s.len() == 0 {
        0
    } else {
        (byte_sum(s.drop_last()) + s.last()) as nat
    }
}

/// The sum, over every non-empty prefix of `s`, of one plus the sum of its bytes.
pub open spec fn prefix_total(s: Seq<u8>) -> nat
    decreases s.len(),
{
    if s.len() == 0 {
        0
    } else {
        (prefix_total(s.drop_last()) + 1 + byte_sum(s)) as nat
    }
}

/// The reference formula: Adler-32 keeps `A`, one plus the sum of the bytes,
/// and `B`, the sum of the values `A` took after each byte, both modulo 65521,
/// and yields `B * 65536 + A`.
pub proof fn lemma_adler32_formula(s: Seq<u8>)
    ensures
        adler_fold(1, 0, s) == (
            ((1 + byte_sum(s)) as int % ADLER_MOD as int) as nat,
            (prefix_total(s) as int % ADLER_MOD as int) as nat,
        ),
        adler32(s) == (prefix_total(s) as int % ADLER_MOD as int) * 0x1_0000 + (1 + byte_sum(
            s,
        )) as int % ADLER_MOD as int,
    decreases s.len(),
{
    let m = ADLER_MOD as int;
    if s.len() == 0 {
        lemma_small_mod(1, ADLER_MOD as nat);
        lemma_small_mod(0, ADLER_MOD as nat);
    } else {
        let init = s.drop_last();
        let x = s.last() as int;
        lemma_adler32_formula(init);
        let sum = (1 + byte_sum(init)) as int;
        let total = prefix_total(init) as int;
        lemma_add_mod_noop(sum, x, m);
        lemma_small_mod(x as nat, m as nat);
        let a = (sum + x) % m;
        lemma_add_mod_noop(total, sum + x, m);
        assert(a % m == a) by {
            lemma_small_mod(a as nat, m as nat);
        }
    }
}

} // verus!
