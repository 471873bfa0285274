//! A fast hash for internal node ids.
use std::hash::Hasher;
use vstd::prelude::*;

verus! {

/// The hash state.
pub struct FxHasher(u64);

impl Default for FxHasher {
    fn default() -> (r: Self)
        ensures
            r@ == 0,
    {
        FxHasher(0)
    }
}

impl View for FxHasher {
    type V = u64;

    closed spec fn view(&self) -> u64 {
        self.0
    }
}

/// The bits of a word, five places on, the highest coming in at the bottom.
pub open spec fn rotated5(x: u64) -> u64 {
    (x << 5) | (x >> 59)
}

/// The state after one more word.
pub open spec fn fx_word(h: u64, i: u64) -> u64 {
    (rotated5(h) ^ i).wrapping_mul(0x517c_c1b7_2722_0a95u64)
}

/// The state after some bytes, each taken as a word.
pub open spec fn fx_bytes(h: u64, s: Seq<u8>) -> u64
    decreases s.len(),
{
    if s.len() == 0 {
        h
    } else {
        fx_word(fx_bytes(h, s.drop_last()), s.last() as u64)
    }
}

impl Hasher for FxHasher {
    /// The hash.
    fn finish(&self) -> (r: u64)
        ensures
            r == self@,
    {
        self.0
    }

    /// Take in some bytes.
    fn write(&mut self, bytes: &[u8])
        ensures
            final(self)@ == fx_bytes(old(self)@, bytes@),
    {
        let mut i: usize = 0;
        assert(bytes@.take(0) =~= Seq::<u8>::empty());
        while i < bytes.len()
            invariant
                i <= bytes.len(),
                self@ == fx_bytes(old(self)@, bytes@.take(i as int)),
            decreases bytes.len() - i,
        {
            proof {
                let t = bytes@.take(i + 1);
                assert(t.drop_last() =~= bytes@.take(i as int));
                assert(t.last() == bytes@[i as int]);
            }
            self.write_u64(bytes[i] as u64);
            i += 1;
        }
        assert(bytes@.take(i as int) =~= bytes@);
    }

    /// Take in a word.
    fn write_u64(&mut self, i: u64)
        ensures
            final(self)@ == fx_word(old(self)@, i),
    {
        let x: u64 = self.0;
        self.0 = (((x << 5) | (x >> 59)) ^ i).wrapping_mul(0x517c_c1b7_2722_0a95);
    }

    /// Take in half a word.
    fn write_u32(&mut self, i: u32)
        ensures
            final(self)@ == fx_word(old(self)@, i as u64),
    {
        self.write_u64(i as u64);
    }
}

} // verus!
