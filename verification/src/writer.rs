use crate::bits::{bit_of_byte, enc, lemma_enc_index, lemma_enc_len, stream_of};
use vstd::arithmetic::div_mod::{
    lemma_fundamental_div_mod, lemma_fundamental_div_mod_converse,
    lemma_mod_division_less_than_divisor,
};
use vstd::arithmetic::power2::pow2;
use vstd::bits::lemma_u32_shr_is_div;
use vstd::prelude::*;

verus! {

/// An append-only bit stream: whole bytes plus up to seven bits of a final,
/// partially filled byte whose unused low positions stay zero. `finish`
/// hands the bytes out, so a stream that ends mid-byte is padded with zero
/// bits, as the chunked container's bit-packed fields require.
pub struct BitWriter {
    buf: Vec<u8>,
    len_bits: usize,
}

impl View for BitWriter {
    type V = Seq<bool>;

    closed spec fn view(&self) -> Seq<bool> {
        stream_of(self.buf@).take(self.len_bits as int)
    }
}

impl BitWriter {
    /// The byte buffer is as short as the bit length allows and every bit
    /// past the logical end is zero.
    pub closed spec fn wf(&self) -> bool {
        &&& self.len_bits <= 8 * self.buf@.len()
        &&& 8 * self.buf@.len() < self.len_bits + 8
        &&& forall|i: int|
            self.len_bits <= i < 8 * self.buf@.len() ==> !(#[trigger] stream_of(self.buf@)[i])
    }

    /// An empty bit stream.
    pub fn new() -> (r: BitWriter)
        ensures
            r.wf(),
            r@ == Seq::<bool>::empty(),
    {
        let r = BitWriter { buf: Vec::new(), len_bits: 0 };
        proof {
            assert(r@ =~= Seq::<bool>::empty());
        }
        r
    }

    /// The number of bits written so far.
    pub fn bit_len(&self) -> (r: usize)
        requires
            self.wf(),
        ensures
            r as nat == self@.len(),
    {
        self.len_bits
    }

    /// Appends a single bit.
    fn push_bit(&mut self, b: bool)
        requires
            old(self).wf(),
            old(self).len_bits < usize::MAX,
        ensures
            final(self).wf(),
            final(self)@ == old(self)@ + seq![b],
    {
        let ghost obuf = self.buf@;
        let ghost len = self.len_bits as int;
        proof {
            assert(forall|jj: u8| 1 <= jj < 8 ==> (0x80u8 & (0x80u8 >> jj)) == 0) by (bit_vector);
            assert((0x80u8 & (0x80u8 >> 0u8)) != 0) by (bit_vector);
            assert(forall|jj: u8| jj < 8 ==> (0u8 & (0x80u8 >> jj)) == 0) by (bit_vector);
            assert(forall|x: u8, a: u8, c: u8|
                a < 8 && c < 8 && a != c ==> ((x | (0x80u8 >> a)) & (0x80u8 >> c)) == (x & (0x80u8
                    >> c))) by (bit_vector);
            assert(forall|x: u8, a: u8| a < 8 ==> ((x | (0x80u8 >> a)) & (0x80u8 >> a)) != 0)
                by (bit_vector);
        }
        let j = self.len_bits % 8;
        if j == 0 {
            let nb: u8 = if b {
                0x80
            } else {
                0
            };
            self.buf.push(nb);
            self.len_bits = self.len_bits + 1;
            proof {
                let nbuf = self.buf@;
                assert(len == 8 * obuf.len()) by {
                    lemma_fundamental_div_mod(len, 8);
                };
                assert forall|i: int| 0 <= i < 8 * obuf.len() implies stream_of(nbuf)[i]
                    == stream_of(obuf)[i] by {
                    lemma_fundamental_div_mod(i, 8);
                    lemma_mod_division_less_than_divisor(i, 8);
                    assert(i / 8 < obuf.len());
                    assert(nbuf[i / 8] == obuf[i / 8]);
                }
                assert forall|jj: int| 0 <= jj < 8 implies #[trigger] stream_of(nbuf)[8
                    * obuf.len() + jj] == bit_of_byte(nb, jj as nat) by {
                    lemma_fundamental_div_mod_converse(
                        8 * obuf.len() + jj,
                        8,
                        obuf.len() as int,
                        jj,
                    );
                }
                assert(bit_of_byte(nb, 0) == b);
                assert forall|jj: int| 1 <= jj < 8 implies !(#[trigger] bit_of_byte(
                    nb,
                    jj as nat,
                )) by {
                    let u = jj as u8;
                    assert((0x80u8 & (0x80u8 >> u)) == 0 && (0u8 & (0x80u8 >> u)) == 0);
                }
                assert(self@ =~= old(self)@ + seq![b]);
                assert(self.wf());
            }
        } else {
            let i0 = self.len_bits / 8;
            proof {
                lemma_fundamental_div_mod(len, 8);
                lemma_mod_division_less_than_divisor(len, 8);
                assert(len < 8 * obuf.len());
                assert(i0 < obuf.len());
            }
            if b {
                let ob = self.buf[i0];
                let nb = ob | (0x80u8 >> (j as u8));
                self.buf.set(i0, nb);
                proof {
                    let nbuf = self.buf@;
                    assert forall|i: int|
                        0 <= i < 8 * nbuf.len() && i / 8 != i0 implies stream_of(nbuf)[i]
                        == stream_of(obuf)[i] by {
                        assert(nbuf[i / 8] == obuf[i / 8]);
                    }
                    assert forall|jj: int| 0 <= jj < 8 && jj != len % 8 implies #[trigger] bit_of_byte(
                        nbuf[i0 as int],
                        jj as nat,
                    ) == bit_of_byte(obuf[i0 as int], jj as nat) by {
                        let a = (len % 8) as u8;
                        let c = jj as u8;
                        assert(((ob | (0x80u8 >> a)) & (0x80u8 >> c)) == (ob & (0x80u8 >> c)));
                    }
                    assert forall|i: int|
                        0 <= i < 8 * nbuf.len() && i != len implies stream_of(nbuf)[i]
                        == stream_of(obuf)[i] by {
                        if i / 8 == i0 {
                            lemma_fundamental_div_mod(i, 8);
                            lemma_mod_division_less_than_divisor(i, 8);
                            assert(i % 8 != len % 8);
                        }
                    }
                    assert(stream_of(nbuf)[len] == bit_of_byte(nbuf[i0 as int], (len % 8) as nat))
                        by {
                        lemma_fundamental_div_mod(len, 8);
                    }
                    assert(stream_of(nbuf)[len]) by {
                        let a = (len % 8) as u8;
                        assert(((ob | (0x80u8 >> a)) & (0x80u8 >> a)) != 0);
                    }
                }
                self.len_bits = self.len_bits + 1;
                proof {
                    assert(self@ =~= old(self)@ + seq![b]);
                    assert(self.wf());
                }
            } else {
                proof {
                    assert(!stream_of(obuf)[len]);
                }
                self.len_bits = self.len_bits + 1;
                proof {
                    assert(self@ =~= old(self)@ + seq![b]);
                    assert(self.wf());
                }
            }
        }
    }

    /// Appends the `n`-bit big-endian encoding of `v`, most significant bit
    /// first.
    pub fn write_bits(&mut self, v: u32, n: u32)
        requires
            old(self).wf(),
            n <= 32,
            (v as nat) < pow2(n as nat),
            old(self)@.len() + n <= usize::MAX,
        ensures
            final(self).wf(),
            final(self)@ == old(self)@ + enc(v as nat, n as nat),
            final(self)@.len() == old(self)@.len() + n,
    {
        proof {
            lemma_enc_len(v as nat, n as nat);
        }
        let ghost e = enc(v as nat, n as nat);
        let mut k: u32 = 0;
        while k < n
            invariant
                self.wf(),
                k <= n,
                n <= 32,
                (v as nat) < pow2(n as nat),
                e == enc(v as nat, n as nat),
                e.len() == n,
                old(self)@.len() + n <= usize::MAX,
                self@ == old(self)@ + e.take(k as int),
                self@.len() == old(self)@.len() + k,
            decreases n - k,
        {
            let sh = n - 1 - k;
            let bit = (v >> sh) & 1;
            proof {
                lemma_enc_index(v as nat, n as nat, k as nat);
                lemma_u32_shr_is_div(v, sh);
                let y = v >> sh;
                assert((y & 1) == y % 2) by (bit_vector);
                assert(e[k as int] == (bit == 1));
                assert(e.take(k + 1) =~= e.take(k as int).push(e[k as int]));
            }
            self.push_bit(bit == 1);
            proof {
                assert(self@ =~= old(self)@ + e.take(k + 1));
            }
            k = k + 1;
        }
        proof {
            assert(e.take(n as int) =~= e);
        }
    }

    /// Hands out the written bytes: the bit stream, zero-padded to a whole
    /// number of bytes.
    pub fn finish(self) -> (r: Vec<u8>)
        requires
            self.wf(),
        ensures
            r@.len() as int == (self@.len() + 7) / 8,
            stream_of(r@).take(self@.len() as int) == self@,
            forall|i: int| self@.len() <= i < 8 * r@.len() ==> !(#[trigger] stream_of(r@)[i]),
    {
        proof {
            lemma_fundamental_div_mod_converse(
                self.len_bits + 7,
                8,
                self.buf@.len() as int,
                self.len_bits + 7 - 8 * self.buf@.len(),
            );
        }
        self.buf
    }
}

} // verus!
