use crate::bits::{be32, be32_of, bit_of_byte, bits_value, lemma_bits_value_bound, stream_of};
use crate::error::DecodeError;
use vstd::arithmetic::div_mod::*;
use vstd::arithmetic::power2::*;
use vstd::prelude::*;

verus! {

/// A read position over a byte buffer, at bit granularity: `byte` whole bytes
/// plus `bit` bits (most-significant first) into the next byte.
///
/// The cursor holds only the position; every read takes the buffer as an
/// argument, so the same cursor value can be replayed over the same bytes.
#[derive(Clone, Copy, Debug, PartialEq, Eq, Structural)]
pub struct BitCursor {
    pub byte: usize,
    pub bit: u8,
}

impl BitCursor {
    /// A cursor is well formed when its sub-byte offset is a bit index.
    pub open spec fn wf(&self) -> bool {
        self.bit < 8
    }

    /// The absolute position in bits.
    pub open spec fn pos(&self) -> nat {
        8 * self.byte as nat + self.bit as nat
    }

    /// A fresh cursor at the start of a buffer.
    pub fn new() -> (r: BitCursor)
        ensures
            r.byte == 0,
            r.bit == 0,
            r.wf(),
    {
        BitCursor { byte: 0, bit: 0 }
    }

    /// The current byte offset; meaningful when the cursor is byte-aligned.
    pub fn byte_position(&self) -> (r: usize)
        ensures
            r == self.byte,
    {
        self.byte
    }

    /// True when the cursor sits on a byte boundary.
    pub fn is_aligned(&self) -> (r: bool)
        ensures
            r == (self.bit == 0),
    {
        self.bit == 0
    }

    /// Reads `n` bits (1 to 32), most-significant-bit first, and advances.
    /// Fails with `Truncated`, leaving the cursor unchanged, when fewer than
    /// `n` bits remain.
    pub fn read_bits(&mut self, data: &[u8], n: u32) -> (r: Result<u32, DecodeError>)
        requires
            old(self).wf(),
            1 <= n <= 32,
        ensures
            final(self).wf(),
            ({
                let s = stream_of(data@);
                let p = old(self).pos();
                if p + n <= s.len() {
                    &&& r matches Ok(v) && v as nat == bits_value(
                        s.subrange(p as int, p as int + n),
                    )
                    &&& final(self).pos() == p + n
                } else {
                    &&& r == Err::<u32, DecodeError>(DecodeError::Truncated)
                    &&& *final(self) == *old(self)
                }
            }),
    {
        let ghost s = stream_of(data@);
        let ghost p = old(self).pos();
        let len = data.len();
        if self.byte > len {
            return Err(DecodeError::Truncated);
        }
        let have: u128 = ((len - self.byte) as u128) * 8;
        let need: u128 = self.bit as u128 + n as u128;
        if need > have {
            assert(p + n > s.len());
            return Err(DecodeError::Truncated);
        }
        assert(p + n <= s.len());
        proof {
            lemma2_to64();
        }
        let mut acc: u64 = 0;
        let mut k: u32 = 0;
        while k < n
            invariant
                self == old(self),
                self.wf(),
                1 <= n <= 32,
                k <= n,
                p == self.pos(),
                s == stream_of(data@),
                p + n <= s.len(),
                data@.len() == len,
                acc as nat == bits_value(s.subrange(p as int, p as int + k)),
                acc < pow2(k as nat),
            decreases n - k,
        {
            proof {
                lemma_pow2_strictly_increases(k as nat, 33);
                lemma2_to64();
                lemma2_to64_rest();
            }
            let t = self.bit as usize + k as usize;
            proof {
                lemma_fundamental_div_mod(t as int, 8);
                assert(8 * (self.byte + t / 8) + (t % 8) == p + k);
                assert(8 * (self.byte as int + t as int / 8) <= p + k < 8 * len);
                lemma_fundamental_div_mod_converse((p + k) as int, 8, self.byte as int + t as int
                    / 8, t as int % 8);
            }
            let idx = self.byte + t / 8;
            let sh = (t % 8) as u8;
            let b = data[idx];
            let bitset = b & (0x80u8 >> sh) != 0;
            proof {
                assert(s[(p + k) as int] == bit_of_byte(data@[(p + k) as int / 8], ((p + k) as int
                    % 8) as nat));
                assert(s[(p + k) as int] == bitset);
                let sub1 = s.subrange(p as int, p as int + k + 1);
                assert(sub1.drop_last() =~= s.subrange(p as int, p as int + k));
                assert(sub1.last() == bitset);
                lemma_pow2_unfold((k + 1) as nat);
            }
            acc = acc * 2 + (if bitset {
                1
            } else {
                0
            });
            k = k + 1;
        }
        proof {
            lemma_bits_value_bound(s.subrange(p as int, p as int + n));
            if (n as nat) < 32 {
                lemma_pow2_strictly_increases(n as nat, 32);
            }
            lemma2_to64();
        }
        let v: u32 = acc as u32;
        let t = self.bit as usize + n as usize;
        proof {
            lemma_fundamental_div_mod(t as int, 8);
            assert(8 * (self.byte as int + t as int / 8) + (t as int % 8) == p + n);
            assert(8 * (self.byte as int + t as int / 8) <= p + n <= 8 * len);
        }
        self.byte = self.byte + t / 8;
        self.bit = (t % 8) as u8;
        Ok(v)
    }

    /// Reads `n` whole bytes and advances; the cursor must be byte-aligned.
    /// Fails with `Misaligned` mid-byte and `Truncated` when fewer than `n`
    /// bytes remain, leaving the cursor unchanged either way.
    pub fn read_bytes(&mut self, data: &[u8], n: usize) -> (r: Result<Vec<u8>, DecodeError>)
        requires
            old(self).wf(),
        ensures
            final(self).wf(),
            ({
                let p = old(self).byte;
                if old(self).bit != 0 {
                    &&& r == Err::<Vec<u8>, DecodeError>(DecodeError::Misaligned)
                    &&& *final(self) == *old(self)
                } else if p + n <= data@.len() {
                    &&& r matches Ok(v) && v@ == data@.subrange(p as int, p as int + n as int)
                    &&& final(self).byte == p + n
                    &&& final(self).bit == 0
                } else {
                    &&& r == Err::<Vec<u8>, DecodeError>(DecodeError::Truncated)
                    &&& *final(self) == *old(self)
                }
            }),
    {
        if self.bit != 0 {
            return Err(DecodeError::Misaligned);
        }
        if self.byte > data.len() || n > data.len() - self.byte {
            return Err(DecodeError::Truncated);
        }
        let p = self.byte;
        let mut v: Vec<u8> = Vec::new();
        let mut i: usize = 0;
        while i < n
            invariant
                i <= n,
                p + n <= usize::MAX,
                p + n <= data@.len(),
                v@.len() == i,
                forall|j: int| 0 <= j < i ==> v@[j] == data@[p + j],
            decreases n - i,
        {
            v.push(data[p + i]);
            i = i + 1;
        }
        assert(v@ =~= data@.subrange(p as int, p as int + n as int));
        self.byte = self.byte + n;
        Ok(v)
    }

    /// Reads a big-endian 32-bit integer; the cursor must be byte-aligned.
    pub fn read_u32_be(&mut self, data: &[u8]) -> (r: Result<u32, DecodeError>)
        requires
            old(self).wf(),
        ensures
            final(self).wf(),
            ({
                let p = old(self).byte;
                if old(self).bit != 0 {
                    &&& r == Err::<u32, DecodeError>(DecodeError::Misaligned)
                    &&& *final(self) == *old(self)
                } else if p + 4 <= data@.len() {
                    &&& r matches Ok(v) && v == be32(data@.subrange(p as int, p as int + 4))
                    &&& final(self).byte == p + 4
                    &&& final(self).bit == 0
                } else {
                    &&& r == Err::<u32, DecodeError>(DecodeError::Truncated)
                    &&& *final(self) == *old(self)
                }
            }),
    {
        let ghost p = self.byte;
        match self.read_bytes(data, 4) {
            Ok(v) => {
                let r = be32_of(v[0], v[1], v[2], v[3]);
                proof {
                    assert(seq![v@[0], v@[1], v@[2], v@[3]] =~= data@.subrange(
                        p as int,
                        p as int + 4,
                    ));
                }
                Ok(r)
            },
            Err(e) => Err(e),
        }
    }
}

} // verus!
