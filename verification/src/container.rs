use crate::bits::{be32, be32_of, be_bytes, lemma_be32_of_be_bytes, push_be32};
use crate::cursor::BitCursor;
use crate::error::DecodeError;
use crate::tables::{
    decode_atom_table, decode_export_table, spec_decode_atom_table, spec_decode_export_table,
    AtomTable, ExportTable,
};
use crate::text::text_of;
use vstd::prelude::*;
use vstd::slice::slice_to_vec;
use vstd::string::StringSliceAdditionalSpecFns;
use vstd::utf8::valid_utf8;

verus! {

/// The fixed container magic, the bytes of `"FOR1"`.
pub open spec fn magic_container() -> Seq<u8> {
    seq![0x46u8, 0x4Fu8, 0x52u8, 0x31u8]
}

/// The fixed format magic, the bytes of `"BEAM"`.
pub open spec fn magic_format() -> Seq<u8> {
    seq![0x42u8, 0x45u8, 0x41u8, 0x4Du8]
}

/// The 12-byte module header: container magic, declared size, format magic.
/// `declared_size` is the byte length of everything that follows the first
/// eight bytes of the file.
#[derive(Clone, Copy, Debug, PartialEq, Eq, Structural)]
pub struct ModuleHeader {
    pub declared_size: u32,
}

/// The 12-byte wire form of a header.
pub open spec fn spec_encode_header(h: ModuleHeader) -> Seq<u8> {
    magic_container() + be_bytes(h.declared_size) + magic_format()
}

/// What decoding a header at `pos` yields: the header and the end position,
/// `Truncated` when fewer than 12 bytes remain, `MagicMismatch` when either
/// magic differs.
pub open spec fn spec_decode_header(s: Seq<u8>, pos: int) -> Result<(ModuleHeader, int), DecodeError>
    recommends
        0 <= pos <= s.len(),
{
    if pos + 12 > s.len() {
        Err(DecodeError::Truncated)
    } else if s.subrange(pos, pos + 4) != magic_container() || s.subrange(pos + 8, pos + 12)
        != magic_format() {
        Err(DecodeError::MagicMismatch)
    } else {
        Ok((ModuleHeader { declared_size: be32(s.subrange(pos + 4, pos + 8)) }, pos + 12))
    }
}

/// Reads and validates the module header, consuming exactly 12 bytes on
/// success and leaving the cursor unchanged on failure.
pub fn decode_header(data: &[u8], cur: &mut BitCursor) -> (r: Result<ModuleHeader, DecodeError>)
    requires
        old(cur).wf(),
        old(cur).bit == 0,
    ensures
        final(cur).wf(),
        final(cur).bit == 0,
        ({
            match spec_decode_header(data@, old(cur).byte as int) {
                Ok((h, end)) => r matches Ok(h2) && h2 == h && final(cur).byte == end,
                Err(e) => r matches Err(e2) && e2 == e && *final(cur) == *old(cur),
            }
        }),
    {
    let ghost s = data@;
    let ghost p = old(cur).byte as int;
    let start = *cur;
    match cur.read_bytes(data, 12) {
        Ok(v) => {
            if v[0] == 0x46 && v[1] == 0x4F && v[2] == 0x52 && v[3] == 0x31 && v[8] == 0x42 && v[9]
                == 0x45 && v[10] == 0x41 && v[11] == 0x4D {
                let size = be32_of(v[4], v[5], v[6], v[7]);
                proof {
                    assert(s.subrange(p, p + 4) =~= magic_container());
                    assert(s.subrange(p + 8, p + 12) =~= magic_format());
                    assert(seq![v@[4], v@[5], v@[6], v@[7]] =~= s.subrange(p + 4, p + 8));
                }
                Ok(ModuleHeader { declared_size: size })
            } else {
                proof {
                    if s.subrange(p, p + 4) == magic_container() && s.subrange(p + 8, p + 12)
                        == magic_format() {
                        assert(v@[0] == s.subrange(p, p + 4)[0]);
                        assert(v@[1] == s.subrange(p, p + 4)[1]);
                        assert(v@[2] == s.subrange(p, p + 4)[2]);
                        assert(v@[3] == s.subrange(p, p + 4)[3]);
                        assert(v@[8] == s.subrange(p + 8, p + 12)[0]);
                        assert(v@[9] == s.subrange(p + 8, p + 12)[1]);
                        assert(v@[10] == s.subrange(p + 8, p + 12)[2]);
                        assert(v@[11] == s.subrange(p + 8, p + 12)[3]);
                    }
                }
                *cur = start;
                Err(DecodeError::MagicMismatch)
            }
        },
        Err(e) => Err(e),
    }
}

/// Appends the 12-byte wire form of a header.
pub fn encode_header(h: &ModuleHeader, out: &mut Vec<u8>)
    ensures
        final(out)@ == old(out)@ + spec_encode_header(*h),
{
    out.push(0x46);
    out.push(0x4F);
    out.push(0x52);
    out.push(0x31);
    push_be32(out, h.declared_size);
    out.push(0x42);
    out.push(0x45);
    out.push(0x41);
    out.push(0x4D);
    assert(out@ =~= old(out)@ + spec_encode_header(*h));
}

/// Decoding an encoded header gives back the header and consumes exactly 12
/// bytes, wherever it sits in a buffer.
pub proof fn lemma_header_round_trip(h: ModuleHeader, s: Seq<u8>, pos: int)
    requires
        0 <= pos,
        pos + 12 <= s.len(),
        s.subrange(pos, pos + 12) == spec_encode_header(h),
    ensures
        spec_decode_header(s, pos) == Ok::<(ModuleHeader, int), DecodeError>((h, pos + 12)),
{
    lemma_be32_of_be_bytes(h.declared_size);
    let e = spec_encode_header(h);
    assert(magic_container().len() == 4 && be_bytes(h.declared_size).len() == 4 && magic_format().len() == 4);
    assert forall|k: int| 0 <= k < 4 implies s.subrange(pos, pos + 4)[k] == magic_container()[k] by {
        assert(e[k] == s.subrange(pos, pos + 12)[k]);
    }
    assert forall|k: int| 0 <= k < 4 implies s.subrange(pos + 4, pos + 8)[k] == be_bytes(
        h.declared_size,
    )[k] by {
        assert(e[k + 4] == s.subrange(pos, pos + 12)[k + 4]);
    }
    assert forall|k: int| 0 <= k < 4 implies s.subrange(pos + 8, pos + 12)[k] == magic_format()[k]
        by {
        assert(e[k + 8] == s.subrange(pos, pos + 12)[k + 8]);
    }
    assert(s.subrange(pos, pos + 4) =~= magic_container());
    assert(s.subrange(pos + 4, pos + 8) =~= be_bytes(h.declared_size));
    assert(s.subrange(pos + 8, pos + 12) =~= magic_format());
}

/// Padding after a chunk payload of `size` bytes: up to the next multiple of 4.
pub open spec fn pad_len(size: nat) -> nat {
    (((4 - size % 4) % 4) as nat)
}

/// The whole on-wire span of a chunk with a payload of `size` bytes.
pub open spec fn chunk_wire_len(size: nat) -> nat {
    8 + size + pad_len(size)
}

/// A single chunk: a 4-byte tag, the declared payload size, and the payload.
/// On the wire the payload is followed by `pad_len(size)` padding bytes.
#[derive(Clone, Debug, PartialEq, Eq)]
pub struct Chunk {
    pub tag: Vec<u8>,
    pub size: u32,
    pub payload: Vec<u8>,
}

impl Chunk {
    /// The tag names 4 bytes and the declared size is the payload length.
    pub open spec fn wf(&self) -> bool {
        self.tag@.len() == 4 && self.size as nat == self.payload@.len()
    }
}

/// `Seq::new` of zero bytes, the padding written after a payload.
pub open spec fn zero_bytes(n: nat) -> Seq<u8> {
    Seq::new(n, |i: int| 0u8)
}

/// The wire form of a chunk: tag, big-endian size, payload, zero padding.
pub open spec fn spec_encode_chunk(tag: Seq<u8>, payload: Seq<u8>) -> Seq<u8> {
    tag + be_bytes(payload.len() as u32) + payload + zero_bytes(pad_len(payload.len()))
}

/// What decoding a chunk at `pos` yields: `None` at the exact end of the
/// buffer, otherwise the tag, the payload and the end position past the
/// padding, or `Truncated` when the buffer ends inside the chunk.
pub open spec fn spec_decode_chunk(s: Seq<u8>, pos: int) -> Result<
    Option<(Seq<u8>, Seq<u8>, int)>,
    DecodeError,
>
    recommends
        0 <= pos <= s.len(),
{
    if pos == s.len() {
        Ok(None)
    } else if pos + 8 > s.len() {
        Err(DecodeError::Truncated)
    } else {
        let size = be32(s.subrange(pos + 4, pos + 8)) as int;
        if pos + 8 + size + pad_len(size as nat) > s.len() {
            Err(DecodeError::Truncated)
        } else {
            Ok(
                Some(
                    (
                        s.subrange(pos, pos + 4),
                        s.subrange(pos + 8, pos + 8 + size),
                        pos + 8 + size + pad_len(size as nat),
                    ),
                ),
            )
        }
    }
}

/// Reads the next chunk: its tag, size, payload, then skips the padding
/// (padding values are not validated). Returns `None` at the end of the
/// buffer; fails with `Truncated`, leaving the cursor unchanged, when the
/// declared size overruns the buffer.
pub fn next_chunk(data: &[u8], cur: &mut BitCursor) -> (r: Result<Option<Chunk>, DecodeError>)
    requires
        old(cur).wf(),
        old(cur).bit == 0,
        old(cur).byte <= data@.len(),
    ensures
        final(cur).wf(),
        final(cur).bit == 0,
        final(cur).byte <= data@.len(),
        ({
            match spec_decode_chunk(data@, old(cur).byte as int) {
                Ok(opt) => {
                    match opt {
                        None => r matches Ok(rr) && rr is None && *final(cur) == *old(cur),
                        Some((tag, payload, end)) => r matches Ok(rr) && rr matches Some(c)
                            && c.tag@ == tag && c.payload@ == payload && c.wf() && final(cur).byte
                            == end,
                    }
                },
                Err(e) => r matches Err(e2) && e2 == e && *final(cur) == *old(cur),
            }
        }),
    {
    let ghost s = data@;
    let ghost p = old(cur).byte as int;
    let start = *cur;
    let len = data.len();
    if cur.byte_position() == len {
        return Ok(None);
    }
    let tag = match cur.read_bytes(data, 4) {
        Ok(v) => v,
        Err(e) => {
            *cur = start;
            return Err(DecodeError::Truncated);
        },
    };
    let size = match cur.read_u32_be(data) {
        Ok(v) => v,
        Err(e) => {
            *cur = start;
            return Err(DecodeError::Truncated);
        },
    };
    let pad = (4 - (size % 4)) % 4;
    assert(pad == pad_len(size as nat));
    let total: u64 = size as u64 + pad as u64;
    let rem: u64 = (len - cur.byte_position()) as u64;
    if total > rem {
        *cur = start;
        return Err(DecodeError::Truncated);
    }
    let payload = match cur.read_bytes(data, size as usize) {
        Ok(v) => v,
        Err(e) => {
            proof {
                assert(false);
            }
            *cur = start;
            return Err(DecodeError::Truncated);
        },
    };
    match cur.read_bytes(data, pad as usize) {
        Ok(_) => {},
        Err(e) => {
            proof {
                assert(false);
            }
            *cur = start;
            return Err(DecodeError::Truncated);
        },
    }
    Ok(Some(Chunk { tag, size, payload }))
}

/// Appends the wire form of a chunk: tag, size, payload, zero padding.
pub fn encode_chunk(c: &Chunk, out: &mut Vec<u8>)
    requires
        c.wf(),
    ensures
        final(out)@ == old(out)@ + spec_encode_chunk(c.tag@, c.payload@),
{
    let mut i: usize = 0;
    while i < c.tag.len()
        invariant
            i <= c.tag@.len(),
            out@ == old(out)@ + c.tag@.take(i as int),
        decreases c.tag@.len() - i,
    {
        out.push(c.tag[i]);
        proof {
            assert(c.tag@.take(i + 1) =~= c.tag@.take(i as int).push(c.tag@[i as int]));
        }
        i = i + 1;
    }
    assert(c.tag@.take(c.tag@.len() as int) =~= c.tag@);
    push_be32(out, c.size);
    let ghost mid = out@;
    let mut j: usize = 0;
    while j < c.payload.len()
        invariant
            j <= c.payload@.len(),
            out@ == mid + c.payload@.take(j as int),
        decreases c.payload@.len() - j,
    {
        out.push(c.payload[j]);
        proof {
            assert(c.payload@.take(j + 1) =~= c.payload@.take(j as int).push(
                c.payload@[j as int],
            ));
        }
        j = j + 1;
    }
    assert(c.payload@.take(c.payload@.len() as int) =~= c.payload@);
    let pad = ((4 - (c.size % 4)) % 4) as usize;
    let ghost before_pad = out@;
    let mut k: usize = 0;
    while k < pad
        invariant
            k <= pad,
            out@ == before_pad + zero_bytes(k as nat),
        decreases pad - k,
    {
        out.push(0u8);
        proof {
            assert(zero_bytes((k + 1) as nat) =~= zero_bytes(k as nat).push(0u8));
        }
        k = k + 1;
    }
    assert(out@ =~= old(out)@ + spec_encode_chunk(c.tag@, c.payload@));
}

impl Chunk {
    /// The chunk's tag as text, when the tag bytes are well-formed UTF-8.
    pub fn name(&self) -> (r: Result<&str, DecodeError>)
        ensures
            r is Ok <==> valid_utf8(self.tag@),
            r matches Ok(s) ==> s.spec_bytes() == self.tag@,
            r is Err ==> r == Err::<&str, DecodeError>(DecodeError::InvalidText),
    {
        text_of(self.tag.as_slice())
    }
}

/// The tag that names an atom table chunk, the bytes of `"AtU8"`.
pub open spec fn tag_atoms() -> Seq<u8> {
    seq![0x41u8, 0x74u8, 0x55u8, 0x38u8]
}

/// The tag that names an export table chunk, the bytes of `"ExpT"`.
pub open spec fn tag_exports() -> Seq<u8> {
    seq![0x45u8, 0x78u8, 0x70u8, 0x54u8]
}

/// A decoded chunk payload: an atom table, an export table, or — for any
/// other tag — the payload kept verbatim as opaque bytes.
#[derive(Clone, Debug, PartialEq, Eq)]
pub enum ChunkBody {
    Atoms(AtomTable),
    Exports(ExportTable),
    Other(Vec<u8>),
}

/// Dispatches a chunk on its tag: `"AtU8"` to the atom table decoder,
/// `"ExpT"` to the export table decoder, and any other tag to an opaque
/// passthrough of the payload, byte for byte.
pub fn decode_chunk_body(c: &Chunk) -> (r: Result<ChunkBody, DecodeError>)
    requires
        c.wf(),
    ensures
        c.tag@ == tag_atoms() ==> ({
            match spec_decode_atom_table(c.payload@) {
                Ok(names) => r matches Ok(b) && b matches ChunkBody::Atoms(t) && t.wf()
                    && t.names() == names && t.count as nat == names.len(),
                Err(e) => r matches Err(e2) && e2 == e,
            }
        }),
        c.tag@ == tag_exports() ==> ({
            match spec_decode_export_table(c.payload@) {
                Ok(es) => r matches Ok(b) && b matches ChunkBody::Exports(t) && t.wf()
                    && t.entries@ == es && t.count as nat == es.len(),
                Err(e) => r matches Err(e2) && e2 == e,
            }
        }),
        c.tag@ != tag_atoms() && c.tag@ != tag_exports() ==> (r matches Ok(b) && b matches
            ChunkBody::Other(p) && p@ == c.payload@),
{
    let is_at = c.tag[0] == 0x41 && c.tag[1] == 0x74 && c.tag[2] == 0x55 && c.tag[3] == 0x38;
    let is_exp = c.tag[0] == 0x45 && c.tag[1] == 0x78 && c.tag[2] == 0x70 && c.tag[3] == 0x54;
    proof {
        if is_at {
            assert(c.tag@ =~= tag_atoms());
        } else if c.tag@ == tag_atoms() {
            assert(c.tag@[0] == 0x41 && c.tag@[1] == 0x74 && c.tag@[2] == 0x55 && c.tag@[3]
                == 0x38);
        }
        if is_exp {
            assert(c.tag@ =~= tag_exports());
        } else if c.tag@ == tag_exports() {
            assert(c.tag@[0] == 0x45 && c.tag@[1] == 0x78 && c.tag@[2] == 0x70 && c.tag@[3]
                == 0x54);
        }
    }
    if is_at {
        match decode_atom_table(c.payload.as_slice()) {
            Ok(t) => Ok(ChunkBody::Atoms(t)),
            Err(e) => Err(e),
        }
    } else if is_exp {
        match decode_export_table(c.payload.as_slice()) {
            Ok(t) => Ok(ChunkBody::Exports(t)),
            Err(e) => Err(e),
        }
    } else {
        Ok(ChunkBody::Other(slice_to_vec(c.payload.as_slice())))
    }
}

/// What decoding chunks from `pos` to the end of the buffer yields: the
/// `(tag, payload)` pairs in order, or the first error.
pub open spec fn spec_decode_chunk_list(s: Seq<u8>, pos: int) -> Result<
    Seq<(Seq<u8>, Seq<u8>)>,
    DecodeError,
>
    recommends
        0 <= pos <= s.len(),
    decreases s.len() - pos,
{
    match spec_decode_chunk(s, pos) {
        Ok(opt) => {
            match opt {
                None => Ok(Seq::empty()),
                Some((tag, payload, end)) => {
                    if pos < end <= s.len() {
                        match spec_decode_chunk_list(s, end) {
                            Ok(rest) => Ok(seq![(tag, payload)] + rest),
                            Err(e) => Err(e),
                        }
                    } else {
                        Err(DecodeError::Truncated)
                    }
                },
            }
        },
        Err(e) => Err(e),
    }
}

/// The `(tag, payload)` views of a sequence of chunks.
pub open spec fn chunk_views(cs: Seq<Chunk>) -> Seq<(Seq<u8>, Seq<u8>)> {
    cs.map(|i: int, c: Chunk| (c.tag@, c.payload@))
}

/// What decoding a whole module buffer yields: the validated header and the
/// chunks that follow it, to the exact end of the buffer.
pub open spec fn spec_decode_module(s: Seq<u8>) -> Result<
    (ModuleHeader, Seq<(Seq<u8>, Seq<u8>)>),
    DecodeError,
>  {
    match spec_decode_header(s, 0) {
        Ok((h, end)) => {
            match spec_decode_chunk_list(s, end) {
                Ok(list) => Ok((h, list)),
                Err(e) => Err(e),
            }
        },
        Err(e) => Err(e),
    }
}

/// Decodes a whole module buffer: the 12-byte header, then every chunk until
/// the buffer is exhausted. Unrecognized tags are kept as ordinary chunks;
/// the first malformed chunk fails the whole decode.
pub fn decode_chunks(data: &[u8]) -> (r: Result<(ModuleHeader, Vec<Chunk>), DecodeError>)
    ensures
        ({
            match spec_decode_module(data@) {
                Ok((h, list)) => r matches Ok(p) && p.0 == h && chunk_views(p.1@) == list
                    && (forall|i: int| 0 <= i < p.1@.len() ==> (#[trigger] p.1@[i]).wf()),
                Err(e) => r matches Err(e2) && e2 == e,
            }
        }),
{
    let ghost s = data@;
    let mut cur = BitCursor::new();
    let header = match decode_header(data, &mut cur) {
        Ok(h) => h,
        Err(e) => {
            return Err(e);
        },
    };
    let ghost hdr_end = cur.byte as int;
    let mut chunks: Vec<Chunk> = Vec::new();
    while cur.byte_position() < data.len()
        invariant
            cur.wf(),
            cur.bit == 0,
            cur.byte <= s.len(),
            s == data@,
            0 <= hdr_end <= s.len(),
            spec_decode_header(s, 0) == Ok::<(ModuleHeader, int), DecodeError>(
                (header, hdr_end),
            ),
            forall|i: int| 0 <= i < chunks@.len() ==> (#[trigger] chunks@[i]).wf(),
            ({
                match spec_decode_chunk_list(s, cur.byte as int) {
                    Ok(rest) => spec_decode_chunk_list(s, hdr_end) == Ok::<
                        Seq<(Seq<u8>, Seq<u8>)>,
                        DecodeError,
                    >(chunk_views(chunks@) + rest),
                    Err(e) => spec_decode_chunk_list(s, hdr_end) == Err::<
                        Seq<(Seq<u8>, Seq<u8>)>,
                        DecodeError,
                    >(e),
                }
            }),
        decreases s.len() - cur.byte,
    {
        let ghost pos = cur.byte as int;
        match next_chunk(data, &mut cur) {
            Ok(Some(c)) => {
                proof {
                    let dec = spec_decode_chunk(s, pos);
                    let (tag, payload, end) = dec->Ok_0->Some_0;
                    if spec_decode_chunk_list(s, end) is Ok {
                        let rest = spec_decode_chunk_list(s, end)->Ok_0;
                        assert(chunk_views(chunks@) + (seq![(tag, payload)] + rest) =~= chunk_views(
                            chunks@.push(c),
                        ) + rest);
                    }
                }
                chunks.push(c);
            },
            Ok(None) => {
                proof {
                    assert(false);
                }
            },
            Err(e) => {
                proof {
                    assert(spec_decode_chunk_list(s, pos) == Err::<
                        Seq<(Seq<u8>, Seq<u8>)>,
                        DecodeError,
                    >(e));
                }
                return Err(e);
            },
        }
    }
    proof {
        assert(spec_decode_chunk_list(s, cur.byte as int) == Ok::<
            Seq<(Seq<u8>, Seq<u8>)>,
            DecodeError,
        >(Seq::empty()));
        assert(chunk_views(chunks@) + Seq::<(Seq<u8>, Seq<u8>)>::empty() =~= chunk_views(chunks@));
    }
    Ok((header, chunks))
}

/// Decoding an encoded chunk gives back its tag and payload verbatim and
/// lands exactly past the padding, wherever it sits in a buffer.
pub proof fn lemma_chunk_round_trip(tag: Seq<u8>, payload: Seq<u8>, s: Seq<u8>, pos: int)
    requires
        tag.len() == 4,
        payload.len() <= u32::MAX,
        0 <= pos,
        pos + chunk_wire_len(payload.len()) <= s.len(),
        s.subrange(pos, pos + chunk_wire_len(payload.len()) as int) == spec_encode_chunk(
            tag,
            payload,
        ),
    ensures
        spec_decode_chunk(s, pos) == Ok::<Option<(Seq<u8>, Seq<u8>, int)>, DecodeError>(
            Some((tag, payload, pos + chunk_wire_len(payload.len()) as int)),
        ),
{
    let size = payload.len() as u32;
    lemma_be32_of_be_bytes(size);
    let e = spec_encode_chunk(tag, payload);
    let w = chunk_wire_len(payload.len()) as int;
    assert(be_bytes(size).len() == 4);
    assert(e.len() == w);
    assert forall|k: int| 0 <= k < 4 implies s.subrange(pos, pos + 4)[k] == tag[k] by {
        assert(e[k] == s.subrange(pos, pos + w)[k]);
    }
    assert forall|k: int| 0 <= k < 4 implies s.subrange(pos + 4, pos + 8)[k] == be_bytes(size)[k]
        by {
        assert(e[k + 4] == s.subrange(pos, pos + w)[k + 4]);
    }
    assert forall|k: int|
        0 <= k < payload.len() implies s.subrange(pos + 8, pos + 8 + payload.len() as int)[k]
        == payload[k] by {
        assert(e[k + 8] == s.subrange(pos, pos + w)[k + 8]);
    }
    assert(s.subrange(pos + 4, pos + 8) =~= be_bytes(size));
    assert(s.subrange(pos, pos + 4) =~= tag);
    assert(s.subrange(pos + 8, pos + 8 + payload.len() as int) =~= payload);
}

} // verus!
