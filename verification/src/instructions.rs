use crate::bits::{
    bits_value, bytes_bits, enc, lemma_bits_value_bound, lemma_bits_value_enc,
    lemma_bytes_bits_index, lemma_bytes_bits_len, lemma_bytes_bits_push, lemma_enc_len, stream_of,
};
use crate::cursor::BitCursor;
use crate::error::DecodeError;
use crate::writer::BitWriter;
use vstd::arithmetic::power2::{lemma2_to64, pow2};
use vstd::prelude::*;

verus! {

/// The coarse operand category, a 3-bit discriminant. The first seven carry
/// a nested value; `Extended` carries a 5-bit extended tag.
#[derive(Clone, Debug, PartialEq, Eq)]
pub enum Tag {
    Literal(TagValue),
    Integer(TagValue),
    Atom(TagValue),
    XRegister(TagValue),
    YRegister(TagValue),
    Label(TagValue),
    Character(TagValue),
    Extended(ExtendedTag),
}

/// One selector bit: `0` picks a 4-bit inline value, `1` continues.
#[derive(Clone, Debug, PartialEq, Eq)]
pub enum TagValue {
    Small(SmallInlineValue),
    Normal(LargerTagValue),
}

/// One more selector bit: `0` picks an 11-bit inline value, `1` continues.
#[derive(Clone, Debug, PartialEq, Eq)]
pub enum LargerTagValue {
    Normal(NormalInlineValue),
    Large(LargeValue),
}

/// A 4-bit inline unsigned value.
#[derive(Clone, Copy, Debug, PartialEq, Eq, Structural)]
pub struct SmallInlineValue {
    pub data: u8,
}

/// An 11-bit inline unsigned value.
#[derive(Clone, Copy, Debug, PartialEq, Eq, Structural)]
pub struct NormalInlineValue {
    pub data: u16,
}

/// The widest branch: 3 bits of `0b111` mean an external reference with no
/// payload; any other 3-bit value is a size selector, followed by `size + 2`
/// raw bytes holding a big-endian magnitude. Sizes 0 to 2 are never produced
/// by a correct encoder (smaller encodings cover them) but decode all the
/// same.
#[derive(Clone, Debug, PartialEq, Eq)]
pub enum LargeValue {
    External,
    LargeInline { size: u8, val: LargeInlineValue },
}

/// The raw bytes of a large inline value.
#[derive(Clone, Debug, PartialEq, Eq)]
pub struct LargeInlineValue {
    pub data: Vec<u8>,
}

/// The 5-bit extended tag space; unassigned values pass through as `Other`.
#[derive(Clone, Copy, Debug, PartialEq, Eq)]
pub enum ExtendedTag {
    List,
    FloatingPoint,
    AllocationList,
    Literal,
    TypeHint,
    Other(u8),
}

/// The 5-bit code of an extended tag.
pub open spec fn ext_code(e: ExtendedTag) -> u8 {
    match e {
        ExtendedTag::List => 2,
        ExtendedTag::FloatingPoint => 4,
        ExtendedTag::AllocationList => 6,
        ExtendedTag::Literal => 8,
        ExtendedTag::TypeHint => 10,
        ExtendedTag::Other(v) => v,
    }
}

/// The mathematical content of an operand tag: which branch was taken and
/// the plain values it carries. `kind` is the 3-bit coarse discriminant.
pub enum OperandModel {
    Small { kind: u8, value: u8 },
    Normal { kind: u8, value: u16 },
    External { kind: u8 },
    LargeInline { kind: u8, size: u8, data: Seq<u8> },
    Extended { code: u8 },
}

impl LargeValue {
    pub open spec fn model(&self, kind: u8) -> OperandModel {
        match self {
            LargeValue::External => OperandModel::External { kind },
            LargeValue::LargeInline { size, val } => OperandModel::LargeInline {
                kind,
                size: *size,
                data: val.data@,
            },
        }
    }
}

impl LargerTagValue {
    pub open spec fn model(&self, kind: u8) -> OperandModel {
        match self {
            LargerTagValue::Normal(nv) => OperandModel::Normal { kind, value: nv.data },
            LargerTagValue::Large(lv) => lv.model(kind),
        }
    }
}

impl TagValue {
    pub open spec fn model(&self, kind: u8) -> OperandModel {
        match self {
            TagValue::Small(sv) => OperandModel::Small { kind, value: sv.data },
            TagValue::Normal(l) => l.model(kind),
        }
    }
}

impl View for Tag {
    type V = OperandModel;

    open spec fn view(&self) -> OperandModel {
        match self {
            Tag::Literal(tv) => tv.model(0),
            Tag::Integer(tv) => tv.model(1),
            Tag::Atom(tv) => tv.model(2),
            Tag::XRegister(tv) => tv.model(3),
            Tag::YRegister(tv) => tv.model(4),
            Tag::Label(tv) => tv.model(5),
            Tag::Character(tv) => tv.model(6),
            Tag::Extended(e) => OperandModel::Extended { code: ext_code(*e) },
        }
    }
}

/// Every carried value fits the bit width its branch grants it.
pub open spec fn operand_model_wf(m: OperandModel) -> bool {
    match m {
        OperandModel::Small { kind, value } => kind < 7 && value < 16,
        OperandModel::Normal { kind, value } => kind < 7 && value < 2048,
        OperandModel::External { kind } => kind < 7,
        OperandModel::LargeInline { kind, size, data } => kind < 7 && size < 7 && data.len()
            == size + 2,
        OperandModel::Extended { code } => code < 32,
    }
}

/// The exact bit-level encoding of an operand tag.
pub open spec fn spec_encode_operand(m: OperandModel) -> Seq<bool> {
    match m {
        OperandModel::Small { kind, value } => enc(kind as nat, 3) + enc(0, 1) + enc(
            value as nat,
            4,
        ),
        OperandModel::Normal { kind, value } => enc(kind as nat, 3) + enc(1, 1) + enc(0, 1) + enc(
            value as nat,
            11,
        ),
        OperandModel::External { kind } => enc(kind as nat, 3) + enc(1, 1) + enc(1, 1) + enc(7, 3),
        OperandModel::LargeInline { kind, size, data } => enc(kind as nat, 3) + enc(1, 1) + enc(
            1,
            1,
        ) + enc(size as nat, 3) + bytes_bits(data),
        OperandModel::Extended { code } => enc(7, 3) + enc(code as nat, 5),
    }
}

/// The value of `n` bits of `bits` starting at `pos`.
pub open spec fn val(bits: Seq<bool>, pos: int, n: int) -> nat {
    bits_value(bits.subrange(pos, pos + n))
}

/// What decoding an operand tag at bit position `pos` yields: the model and
/// the end bit position, or `None` when the stream ends mid-field. Every bit
/// pattern at every level is a legal discriminant, so running out of bits is
/// the only failure.
pub open spec fn spec_decode_operand(bits: Seq<bool>, pos: int) -> Option<(OperandModel, int)> {
    if pos < 0 || pos + 3 > bits.len() {
        None
    } else {
        let kind = val(bits, pos, 3);
        if kind == 7 {
            if pos + 8 > bits.len() {
                None
            } else {
                Some((OperandModel::Extended { code: val(bits, pos + 3, 5) as u8 }, pos + 8))
            }
        } else if pos + 4 > bits.len() {
            None
        } else if val(bits, pos + 3, 1) == 0 {
            if pos + 8 > bits.len() {
                None
            } else {
                Some(
                    (
                        OperandModel::Small { kind: kind as u8, value: val(bits, pos + 4, 4) as u8 },
                        pos + 8,
                    ),
                )
            }
        } else if pos + 5 > bits.len() {
            None
        } else if val(bits, pos + 4, 1) == 0 {
            if pos + 16 > bits.len() {
                None
            } else {
                Some(
                    (
                        OperandModel::Normal {
                            kind: kind as u8,
                            value: val(bits, pos + 5, 11) as u16,
                        },
                        pos + 16,
                    ),
                )
            }
        } else if pos + 8 > bits.len() {
            None
        } else {
            let sz = val(bits, pos + 5, 3);
            if sz == 7 {
                Some((OperandModel::External { kind: kind as u8 }, pos + 8))
            } else if pos + 8 + 8 * (sz + 2) > bits.len() {
                None
            } else {
                Some(
                    (
                        OperandModel::LargeInline {
                            kind: kind as u8,
                            size: sz as u8,
                            data: Seq::new(
                                (sz + 2) as nat,
                                |i: int| val(bits, pos + 8 + 8 * i, 8) as u8,
                            ),
                        },
                        pos + 8 + 8 * (sz as int + 2),
                    ),
                )
            }
        }
    }
}

/// Builds the coarse tag for a 3-bit discriminant below 7.
fn mk_tag(kind: u8, tv: TagValue) -> (r: Tag)
    requires
        kind < 7,
    ensures
        r@ == tv.model(kind),
{
    match kind {
        0 => Tag::Literal(tv),
        1 => Tag::Integer(tv),
        2 => Tag::Atom(tv),
        3 => Tag::XRegister(tv),
        4 => Tag::YRegister(tv),
        5 => Tag::Label(tv),
        _ => Tag::Character(tv),
    }
}

/// Builds the extended tag for a 5-bit code.
fn ext_tag_from(code: u8) -> (r: ExtendedTag)
    ensures
        ext_code(r) == code,
{
    match code {
        2 => ExtendedTag::List,
        4 => ExtendedTag::FloatingPoint,
        6 => ExtendedTag::AllocationList,
        8 => ExtendedTag::Literal,
        10 => ExtendedTag::TypeHint,
        _ => ExtendedTag::Other(code),
    }
}

/// Decodes one operand tag from the cursor's current bit position. On
/// success the decoded value is well formed and the cursor has advanced by
/// exactly the tag's encoded width; on `Truncated` the cursor is unchanged.
pub fn decode_operand_tag(data: &[u8], cur: &mut BitCursor) -> (r: Result<Tag, DecodeError>)
    requires
        old(cur).wf(),
    ensures
        final(cur).wf(),
        ({
            match spec_decode_operand(stream_of(data@), old(cur).pos() as int) {
                Some((m, end)) => r matches Ok(t) && t@ == m && operand_model_wf(m)
                    && final(cur).pos() == end,
                None => r == Err::<Tag, DecodeError>(DecodeError::Truncated) && *final(cur)
                    == *old(cur),
            }
        }),
{
    let ghost bits = stream_of(data@);
    let ghost pos = old(cur).pos() as int;
    let start = *cur;
    proof {
        lemma2_to64();
    }
    let kind = match cur.read_bits(data, 3) {
        Ok(v) => v,
        Err(_) => {
            *cur = start;
            return Err(DecodeError::Truncated);
        },
    };
    proof {
        lemma_bits_value_bound(bits.subrange(pos, pos + 3));
    }
    if kind == 7 {
        let code = match cur.read_bits(data, 5) {
            Ok(v) => v,
            Err(_) => {
                *cur = start;
                return Err(DecodeError::Truncated);
            },
        };
        proof {
            lemma_bits_value_bound(bits.subrange(pos + 3, pos + 8));
        }
        return Ok(Tag::Extended(ext_tag_from(code as u8)));
    }
    let sel1 = match cur.read_bits(data, 1) {
        Ok(v) => v,
        Err(_) => {
            *cur = start;
            return Err(DecodeError::Truncated);
        },
    };
    if sel1 == 0 {
        let vsm = match cur.read_bits(data, 4) {
            Ok(v) => v,
            Err(_) => {
                *cur = start;
                return Err(DecodeError::Truncated);
            },
        };
        proof {
            lemma_bits_value_bound(bits.subrange(pos + 4, pos + 8));
            lemma_bits_value_bound(bits.subrange(pos + 3, pos + 4));
        }
        return Ok(mk_tag(kind as u8, TagValue::Small(SmallInlineValue { data: vsm as u8 })));
    }
    let sel2 = match cur.read_bits(data, 1) {
        Ok(v) => v,
        Err(_) => {
            *cur = start;
            return Err(DecodeError::Truncated);
        },
    };
    if sel2 == 0 {
        let vn = match cur.read_bits(data, 11) {
            Ok(v) => v,
            Err(_) => {
                *cur = start;
                return Err(DecodeError::Truncated);
            },
        };
        proof {
            lemma_bits_value_bound(bits.subrange(pos + 5, pos + 16));
            lemma_bits_value_bound(bits.subrange(pos + 3, pos + 4));
            lemma_bits_value_bound(bits.subrange(pos + 4, pos + 5));
        }
        return Ok(
            mk_tag(
                kind as u8,
                TagValue::Normal(LargerTagValue::Normal(NormalInlineValue { data: vn as u16 })),
            ),
        );
    }
    let sz = match cur.read_bits(data, 3) {
        Ok(v) => v,
        Err(_) => {
            *cur = start;
            return Err(DecodeError::Truncated);
        },
    };
    proof {
        lemma_bits_value_bound(bits.subrange(pos + 5, pos + 8));
        lemma_bits_value_bound(bits.subrange(pos + 3, pos + 4));
        lemma_bits_value_bound(bits.subrange(pos + 4, pos + 5));
    }
    if sz == 7 {
        return Ok(mk_tag(kind as u8, TagValue::Normal(LargerTagValue::Large(LargeValue::External))));
    }
    let cnt = sz + 2;
    let mut datav: Vec<u8> = Vec::new();
    let mut i: u32 = 0;
    while i < cnt
        invariant
            cur.wf(),
            bits == stream_of(data@),
            0 <= pos,
            cnt == sz + 2,
            sz < 7,
            kind < 7,
            i <= cnt,
            cur.pos() == pos + 8 + 8 * i,
            cur.pos() <= bits.len(),
            pos + 8 <= bits.len(),
            sz == val(bits, pos + 5, 3),
            kind == val(bits, pos, 3),
            1 == val(bits, pos + 3, 1),
            1 == val(bits, pos + 4, 1),
            start.wf(),
            start.pos() == pos,
            start == *old(cur),
            pos == old(cur).pos() as int,
            datav@.len() == i,
            forall|j: int| 0 <= j < i ==> datav@[j] == val(bits, pos + 8 + 8 * j, 8) as u8,
        decreases cnt - i,
    {
        let b = match cur.read_bits(data, 8) {
            Ok(v) => v,
            Err(_) => {
                proof {
                    assert(pos + 8 + 8 * (sz + 2) > bits.len());
                }
                *cur = start;
                return Err(DecodeError::Truncated);
            },
        };
        proof {
            lemma_bits_value_bound(bits.subrange(pos + 8 + 8 * i, pos + 8 + 8 * i + 8));
        }
        datav.push(b as u8);
        i = i + 1;
    }
    let t = mk_tag(
        kind as u8,
        TagValue::Normal(
            LargerTagValue::Large(
                LargeValue::LargeInline { size: sz as u8, val: LargeInlineValue { data: datav } },
            ),
        ),
    );
    proof {
        assert(datav@ =~= Seq::new((sz + 2) as nat, |j: int| val(bits, pos + 8 + 8 * j, 8) as u8));
    }
    Ok(t)
}

/// The encoded width of every branch: one byte for all single-byte forms,
/// two bytes for the 11-bit form, and — for the large-inline form with size
/// selector `size` — exactly `size + 2` further bytes after the one-byte
/// prefix.
pub proof fn lemma_operand_encoded_len(m: OperandModel)
    requires
        operand_model_wf(m),
    ensures
        spec_encode_operand(m).len() == match m {
            OperandModel::Small { .. } => 8nat,
            OperandModel::Normal { .. } => 16nat,
            OperandModel::External { .. } => 8nat,
            OperandModel::LargeInline { size, .. } => (8 + 8 * (size + 2)) as nat,
            OperandModel::Extended { .. } => 8nat,
        },
{
    match m {
        OperandModel::Small { kind, value } => {
            lemma_enc_len(kind as nat, 3);
            lemma_enc_len(0, 1);
            lemma_enc_len(value as nat, 4);
        },
        OperandModel::Normal { kind, value } => {
            lemma_enc_len(kind as nat, 3);
            lemma_enc_len(1, 1);
            lemma_enc_len(0, 1);
            lemma_enc_len(value as nat, 11);
        },
        OperandModel::External { kind } => {
            lemma_enc_len(kind as nat, 3);
            lemma_enc_len(1, 1);
            lemma_enc_len(7, 3);
        },
        OperandModel::LargeInline { kind, size, data } => {
            lemma_enc_len(kind as nat, 3);
            lemma_enc_len(1, 1);
            lemma_enc_len(size as nat, 3);
            lemma_bytes_bits_len(data);
        },
        OperandModel::Extended { code } => {
            lemma_enc_len(7, 3);
            lemma_enc_len(code as nat, 5);
        },
    }
}

/// The 5-bit code of an extended tag.
fn ext_code_exec(e: &ExtendedTag) -> (r: u8)
    ensures
        r == ext_code(*e),
{
    match e {
        ExtendedTag::List => 2,
        ExtendedTag::FloatingPoint => 4,
        ExtendedTag::AllocationList => 6,
        ExtendedTag::Literal => 8,
        ExtendedTag::TypeHint => 10,
        ExtendedTag::Other(v) => *v,
    }
}

/// Writes the bits of one nested tag value under coarse discriminant `kind`.
fn encode_tag_value(kind: u8, tv: &TagValue, w: &mut BitWriter)
    requires
        kind < 7,
        operand_model_wf(tv.model(kind)),
        old(w).wf(),
        old(w)@.len() + spec_encode_operand(tv.model(kind)).len() <= usize::MAX,
    ensures
        final(w).wf(),
        final(w)@ == old(w)@ + spec_encode_operand(tv.model(kind)),
{
    proof {
        lemma2_to64();
        lemma_operand_encoded_len(tv.model(kind));
    }
    match tv {
        TagValue::Small(sv) => {
            w.write_bits(kind as u32, 3);
            w.write_bits(0, 1);
            w.write_bits(sv.data as u32, 4);
            proof {
                assert(w@ =~= old(w)@ + spec_encode_operand(tv.model(kind)));
            }
        },
        TagValue::Normal(l) => {
            match l {
                LargerTagValue::Normal(nv) => {
                    w.write_bits(kind as u32, 3);
                    w.write_bits(1, 1);
                    w.write_bits(0, 1);
                    w.write_bits(nv.data as u32, 11);
                    proof {
                        assert(w@ =~= old(w)@ + spec_encode_operand(tv.model(kind)));
                    }
                },
                LargerTagValue::Large(lv) => {
                    match lv {
                        LargeValue::External => {
                            w.write_bits(kind as u32, 3);
                            w.write_bits(1, 1);
                            w.write_bits(1, 1);
                            w.write_bits(7, 3);
                            proof {
                                assert(w@ =~= old(w)@ + spec_encode_operand(tv.model(kind)));
                            }
                        },
                        LargeValue::LargeInline { size, val: liv } => {
                            w.write_bits(kind as u32, 3);
                            w.write_bits(1, 1);
                            w.write_bits(1, 1);
                            w.write_bits(*size as u32, 3);
                            let ghost prefix = w@;
                            let ghost d = liv.data@;
                            let mut j: usize = 0;
                            while j < liv.data.len()
                                invariant
                                    w.wf(),
                                    j <= d.len(),
                                    d == liv.data@,
                                    d.len() <= 9,
                                    prefix.len() + 8 * d.len() <= usize::MAX,
                                    w@ == prefix + bytes_bits(d.take(j as int)),
                                    w@.len() == prefix.len() + 8 * j,
                                decreases d.len() - j,
                            {
                                proof {
                                    lemma2_to64();
                                    lemma_bytes_bits_len(d.take(j as int));
                                    lemma_bytes_bits_push(d.take(j as int), d[j as int]);
                                    assert(d.take(j + 1) =~= d.take(j as int).push(d[j as int]));
                                    lemma_enc_len(d[j as int] as nat, 8);
                                }
                                w.write_bits(liv.data[j] as u32, 8);
                                j = j + 1;
                            }
                            proof {
                                assert(d.take(d.len() as int) =~= d);
                                assert(w@ =~= old(w)@ + spec_encode_operand(tv.model(kind)));
                            }
                        },
                    }
                },
            }
        },
    }
}

/// The bits at `pos + off` decode to `v` when the encoding placed `enc(v, n)`
/// at offset `off` of the encoded span.
proof fn lemma_val_piece(bits: Seq<bool>, pos: int, e: Seq<bool>, off: int, n: int, v: nat)
    requires
        0 <= pos,
        0 <= off,
        0 <= n,
        off + n <= e.len(),
        pos + e.len() <= bits.len(),
        bits.subrange(pos, pos + e.len() as int) == e,
        e.subrange(off, off + n) == enc(v, n as nat),
        v < pow2(n as nat),
    ensures
        val(bits, pos + off, n) == v,
{
    assert forall|j: int|
        0 <= j < n implies #[trigger] bits.subrange(pos + off, pos + off + n)[j] == enc(
        v,
        n as nat,
    )[j] by {
        assert(bits.subrange(pos, pos + e.len() as int)[off + j] == e[off + j]);
        assert(e.subrange(off, off + n)[j] == e[off + j]);
    }
    assert(bits.subrange(pos + off, pos + off + n) =~= enc(v, n as nat));
    lemma_bits_value_enc(v, n as nat);
}

/// Round trip: decoding an encoded operand tag, wherever it sits in a bit
/// stream, gives back exactly that tag's model and consumes exactly its
/// encoded width. Together with the encoder's and decoder's contracts this
/// makes encode-decode-encode the identity on wire-valid streams.
pub proof fn lemma_operand_round_trip(bits: Seq<bool>, pos: int, m: OperandModel)
    requires
        operand_model_wf(m),
        0 <= pos,
        pos + spec_encode_operand(m).len() <= bits.len(),
        bits.subrange(pos, pos + spec_encode_operand(m).len() as int) == spec_encode_operand(m),
    ensures
        spec_decode_operand(bits, pos) == Some(
            (m, pos + spec_encode_operand(m).len() as int),
        ),
{
    lemma2_to64();
    lemma_operand_encoded_len(m);
    let e = spec_encode_operand(m);
    match m {
        OperandModel::Small { kind, value } => {
            lemma_enc_len(kind as nat, 3);
            lemma_enc_len(0, 1);
            lemma_enc_len(value as nat, 4);
            assert(e.subrange(0, 3) =~= enc(kind as nat, 3));
            assert(e.subrange(3, 4) =~= enc(0, 1));
            assert(e.subrange(4, 8) =~= enc(value as nat, 4));
            lemma_val_piece(bits, pos, e, 0, 3, kind as nat);
            lemma_val_piece(bits, pos, e, 3, 1, 0);
            lemma_val_piece(bits, pos, e, 4, 4, value as nat);
        },
        OperandModel::Normal { kind, value } => {
            lemma_enc_len(kind as nat, 3);
            lemma_enc_len(1, 1);
            lemma_enc_len(0, 1);
            lemma_enc_len(value as nat, 11);
            assert(e.subrange(0, 3) =~= enc(kind as nat, 3));
            assert(e.subrange(3, 4) =~= enc(1, 1));
            assert(e.subrange(4, 5) =~= enc(0, 1));
            assert(e.subrange(5, 16) =~= enc(value as nat, 11));
            lemma_val_piece(bits, pos, e, 0, 3, kind as nat);
            lemma_val_piece(bits, pos, e, 3, 1, 1);
            lemma_val_piece(bits, pos, e, 4, 1, 0);
            lemma_val_piece(bits, pos, e, 5, 11, value as nat);
        },
        OperandModel::External { kind } => {
            lemma_enc_len(kind as nat, 3);
            lemma_enc_len(1, 1);
            lemma_enc_len(7, 3);
            assert(e.subrange(0, 3) =~= enc(kind as nat, 3));
            assert(e.subrange(3, 4) =~= enc(1, 1));
            assert(e.subrange(4, 5) =~= enc(1, 1));
            assert(e.subrange(5, 8) =~= enc(7, 3));
            lemma_val_piece(bits, pos, e, 0, 3, kind as nat);
            lemma_val_piece(bits, pos, e, 3, 1, 1);
            lemma_val_piece(bits, pos, e, 4, 1, 1);
            lemma_val_piece(bits, pos, e, 5, 3, 7);
        },
        OperandModel::LargeInline { kind, size, data } => {
            lemma_enc_len(kind as nat, 3);
            lemma_enc_len(1, 1);
            lemma_enc_len(size as nat, 3);
            lemma_bytes_bits_len(data);
            assert(e.subrange(0, 3) =~= enc(kind as nat, 3));
            assert(e.subrange(3, 4) =~= enc(1, 1));
            assert(e.subrange(4, 5) =~= enc(1, 1));
            assert(e.subrange(5, 8) =~= enc(size as nat, 3));
            lemma_val_piece(bits, pos, e, 0, 3, kind as nat);
            lemma_val_piece(bits, pos, e, 3, 1, 1);
            lemma_val_piece(bits, pos, e, 4, 1, 1);
            lemma_val_piece(bits, pos, e, 5, 3, size as nat);
            assert forall|i: int| 0 <= i < data.len() implies val(bits, pos + 8 + 8 * i, 8)
                == data[i] as nat by {
                lemma_bytes_bits_index(data, i);
                assert forall|j: int| 0 <= j < 8 implies e.subrange(8 + 8 * i, 8 + 8 * i + 8)[j]
                    == enc(data[i] as nat, 8)[j] by {
                    assert(e[8 + 8 * i + j] == bytes_bits(data)[8 * i + j]);
                    assert(bytes_bits(data).subrange(8 * i, 8 * i + 8)[j] == bytes_bits(data)[8 * i
                        + j]);
                }
                assert(e.subrange(8 + 8 * i, 8 + 8 * i + 8) =~= enc(data[i] as nat, 8));
                lemma_val_piece(bits, pos, e, 8 + 8 * i, 8, data[i] as nat);
            }
            let sz = val(bits, pos + 5, 3);
            assert(Seq::new((sz + 2) as nat, |i: int| val(bits, pos + 8 + 8 * i, 8) as u8)
                =~= data);
        },
        OperandModel::Extended { code } => {
            lemma_enc_len(7, 3);
            lemma_enc_len(code as nat, 5);
            assert(e.subrange(0, 3) =~= enc(7, 3));
            assert(e.subrange(3, 8) =~= enc(code as nat, 5));
            lemma_val_piece(bits, pos, e, 0, 3, 7);
            lemma_val_piece(bits, pos, e, 3, 5, code as nat);
        },
    }
}

/// Writes the exact bit-level encoding of an operand tag, most significant
/// bit first, reproducing the layout the decoder reads.
pub fn encode_operand_tag(t: &Tag, w: &mut BitWriter)
    requires
        operand_model_wf(t@),
        old(w).wf(),
        old(w)@.len() + spec_encode_operand(t@).len() <= usize::MAX,
    ensures
        final(w).wf(),
        final(w)@ == old(w)@ + spec_encode_operand(t@),
{
    proof {
        lemma2_to64();
        lemma_operand_encoded_len(t@);
    }
    match t {
        Tag::Literal(tv) => encode_tag_value(0, tv, w),
        Tag::Integer(tv) => encode_tag_value(1, tv, w),
        Tag::Atom(tv) => encode_tag_value(2, tv, w),
        Tag::XRegister(tv) => encode_tag_value(3, tv, w),
        Tag::YRegister(tv) => encode_tag_value(4, tv, w),
        Tag::Label(tv) => encode_tag_value(5, tv, w),
        Tag::Character(tv) => encode_tag_value(6, tv, w),
        Tag::Extended(e) => {
            let code = ext_code_exec(e);
            w.write_bits(7, 3);
            w.write_bits(code as u32, 5);
            proof {
                assert(w@ =~= old(w)@ + spec_encode_operand(t@));
            }
        },
    }
}

} // verus!
