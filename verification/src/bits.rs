use vstd::arithmetic::div_mod::*;
use vstd::arithmetic::power2::*;
use vstd::prelude::*;

verus! {

/// Bit `j` of byte `b`, counting from the most significant bit.
pub open spec fn bit_of_byte(b: u8, j: nat) -> bool
    recommends
        j < 8,
{
    b & (0x80u8 >> (j as u8)) != 0
}

/// The bit stream of a byte sequence: every byte contributes its eight bits,
/// most significant first.
pub open spec fn stream_of(data: Seq<u8>) -> Seq<bool> {
    Seq::new(data.len() * 8, |i: int| bit_of_byte(data[i / 8], (i % 8) as nat))
}

/// The unsigned value of a bit sequence, read most significant bit first.
pub open spec fn bits_value(bs: Seq<bool>) -> nat
    decreases bs.len(),
{
    if bs.len() == 0 {
        0
    } else {
        2 * bits_value(bs.drop_last()) + (if bs.last() {
            1nat
        } else {
            0nat
        })
    }
}

/// The `n`-bit big-endian encoding of `v` (of `v % pow2(n)` when `v` is too wide).
pub open spec fn enc(v: nat, n: nat) -> Seq<bool>
    decreases n,
{
    if n == 0 {
        Seq::empty()
    } else {
        enc(v / 2, (n - 1) as nat).push(v % 2 == 1)
    }
}

/// The bit stream of a byte sequence, built byte by byte from `enc`.
pub open spec fn bytes_bits(data: Seq<u8>) -> Seq<bool>
    decreases data.len(),
{
    if data.len() == 0 {
        Seq::empty()
    } else {
        enc(data[0] as nat, 8) + bytes_bits(data.drop_first())
    }
}

pub proof fn lemma_enc_len(v: nat, n: nat)
    ensures
        enc(v, n).len() == n,
    decreases n,
{
    if n > 0 {
        lemma_enc_len(v / 2, (n - 1) as nat);
    }
}

/// Decoding the `n`-bit big-endian encoding of `v < pow2(n)` gives back `v`.
pub proof fn lemma_bits_value_enc(v: nat, n: nat)
    requires
        v < pow2(n),
    ensures
        bits_value(enc(v, n)) == v,
    decreases n,
{
    if n == 0 {
        assert(pow2(0) == 1) by {
            lemma2_to64();
        }
    } else {
        let m = (n - 1) as nat;
        let s = enc(v / 2, m);
        lemma_enc_len(v / 2, m);
        assert(enc(v, n).drop_last() =~= s);
        lemma_pow2_unfold(n);
        lemma_fundamental_div_mod(v as int, 2);
        assert(v / 2 < pow2(m));
        lemma_bits_value_enc(v / 2, m);
    }
}

/// A bit sequence of length `n` has a value below `pow2(n)`.
pub proof fn lemma_bits_value_bound(bs: Seq<bool>)
    ensures
        bits_value(bs) < pow2(bs.len()),
    decreases bs.len(),
{
    if bs.len() == 0 {
        assert(pow2(0) == 1) by {
            lemma2_to64();
        }
    } else {
        lemma_bits_value_bound(bs.drop_last());
        lemma_pow2_unfold(bs.len());
    }
}

/// Bit `k` of the `n`-bit encoding of `v` is bit `n - 1 - k` of `v`.
pub proof fn lemma_enc_index(v: nat, n: nat, k: nat)
    requires
        k < n,
    ensures
        enc(v, n)[k as int] == ((v / pow2((n - 1 - k) as nat)) % 2 == 1),
    decreases n,
{
    let m = (n - 1) as nat;
    let s = enc(v / 2, m);
    lemma_enc_len(v / 2, m);
    if k == m {
        assert(enc(v, n)[k as int] == (v % 2 == 1));
        assert(pow2(0) == 1) by {
            lemma2_to64();
        }
        assert(v / 1 == v);
        assert((v / pow2((n - 1 - k) as nat)) % 2 == v % 2);
    } else {
        assert(enc(v, n)[k as int] == s[k as int]);
        lemma_enc_index(v / 2, m, k);
        let e = (n - 2 - k) as nat;
        let p = pow2(e) as int;
        lemma_pow2_pos(e);
        lemma_div_denominator(v as int, 2, p);
        assert((v as int / 2) / p == v as int / (2 * p));
        lemma_pow2_unfold((n - 1 - k) as nat);
        assert(pow2((n - 1 - k) as nat) == 2 * pow2(e));
        assert(enc(v, n)[k as int] == ((v / 2) / pow2(e) % 2 == 1));
        assert(v as int / 2 == (v / 2) as int);
        assert((v / 2) / pow2(e) == v / pow2((n - 1 - k) as nat));
    }
}

pub proof fn lemma_bytes_bits_len(data: Seq<u8>)
    ensures
        bytes_bits(data).len() == 8 * data.len(),
    decreases data.len(),
{
    if data.len() > 0 {
        lemma_enc_len(data[0] as nat, 8);
        lemma_bytes_bits_len(data.drop_first());
    }
}

/// The bits of byte `i` sit at positions `8 * i .. 8 * i + 8` of the stream.
pub proof fn lemma_bytes_bits_index(data: Seq<u8>, i: int)
    requires
        0 <= i < data.len(),
    ensures
        bytes_bits(data).subrange(8 * i, 8 * i + 8) == enc(data[i] as nat, 8),
    decreases i,
{
    lemma_bytes_bits_len(data);
    lemma_enc_len(data[0] as nat, 8);
    if i == 0 {
        assert(bytes_bits(data).subrange(0, 8) =~= enc(data[0] as nat, 8));
    } else {
        let rest = data.drop_first();
        lemma_bytes_bits_len(rest);
        lemma_bytes_bits_index(rest, i - 1);
        assert(bytes_bits(data).subrange(8 * i, 8 * i + 8) =~= bytes_bits(rest).subrange(
            8 * (i - 1),
            8 * (i - 1) + 8,
        ));
        assert(rest[i - 1] == data[i]);
    }
}

/// Appending one byte to a stream appends its eight bits.
pub proof fn lemma_bytes_bits_push(data: Seq<u8>, b: u8)
    ensures
        bytes_bits(data.push(b)) == bytes_bits(data) + enc(b as nat, 8),
    decreases data.len(),
{
    if data.len() == 0 {
        assert(data.push(b)[0] == b);
        assert(data.push(b).drop_first() =~= Seq::<u8>::empty());
        assert(bytes_bits(Seq::<u8>::empty()) =~= Seq::<bool>::empty());
        assert(enc(b as nat, 8) + Seq::<bool>::empty() =~= enc(b as nat, 8));
        assert(Seq::<bool>::empty() + enc(b as nat, 8) =~= enc(b as nat, 8));
    } else {
        assert(data.push(b)[0] == data[0]);
        assert(data.push(b).drop_first() =~= data.drop_first().push(b));
        lemma_bytes_bits_push(data.drop_first(), b);
        assert(enc(data[0] as nat, 8) + (bytes_bits(data.drop_first()) + enc(b as nat, 8)) =~= (enc(
            data[0] as nat,
            8,
        ) + bytes_bits(data.drop_first())) + enc(b as nat, 8));
    }
}

/// The value of four bytes read as a big-endian 32-bit integer.
pub open spec fn be32(s: Seq<u8>) -> u32
    recommends
        s.len() == 4,
{
    (s[0] as nat * 0x1000000 + s[1] as nat * 0x10000 + s[2] as nat * 0x100 + s[3] as nat) as u32
}

/// The four-byte big-endian encoding of `v`.
pub open spec fn be_bytes(v: u32) -> Seq<u8> {
    seq![
        (v as nat / 0x1000000) as u8,
        ((v as nat / 0x10000) % 0x100) as u8,
        ((v as nat / 0x100) % 0x100) as u8,
        ((v as nat) % 0x100) as u8,
    ]
}

pub proof fn lemma_be32_of_be_bytes(v: u32)
    ensures
        be32(be_bytes(v)) == v,
        be_bytes(v).len() == 4,
{
    assert((v / 0x1000000) * 0x1000000 + ((v / 0x10000) % 0x100) * 0x10000 + ((v / 0x100)
        % 0x100) * 0x100 + (v % 0x100) == v) by (bit_vector);
    assert(v / 0x1000000 < 0x100) by (bit_vector);
}

/// Builds a big-endian 32-bit value from four bytes.
pub fn be32_of(v0: u8, v1: u8, v2: u8, v3: u8) -> (r: u32)
    ensures
        r == be32(seq![v0, v1, v2, v3]),
{
    v0 as u32 * 0x1000000 + v1 as u32 * 0x10000 + v2 as u32 * 0x100 + v3 as u32
}

/// Appends the four-byte big-endian encoding of `v`.
pub fn push_be32(out: &mut Vec<u8>, v: u32)
    ensures
        final(out)@ == old(out)@ + be_bytes(v),
{
    out.push((v / 0x1000000) as u8);
    out.push(((v / 0x10000) % 0x100) as u8);
    out.push(((v / 0x100) % 0x100) as u8);
    out.push((v % 0x100) as u8);
    assert(out@ =~= old(out)@ + be_bytes(v));
}

/// Appends every byte of `v` to `out`.
pub fn push_all(out: &mut Vec<u8>, v: &Vec<u8>)
    ensures
        final(out)@ == old(out)@ + v@,
{
    let mut i: usize = 0;
    while i < v.len()
        invariant
            i <= v@.len(),
            out@ == old(out)@ + v@.take(i as int),
        decreases v@.len() - i,
    {
        out.push(v[i]);
        proof {
            assert(v@.take(i + 1) =~= v@.take(i as int).push(v@[i as int]));
        }
        i = i + 1;
    }
    assert(v@.take(v@.len() as int) =~= v@);
}

} // verus!
