use crate::bits::{be32, be_bytes, lemma_be32_of_be_bytes, push_all, push_be32};
use crate::cursor::BitCursor;
use crate::error::DecodeError;
use crate::text::{is_valid_utf8, text_of};
use vstd::prelude::*;
use vstd::string::StringSliceAdditionalSpecFns;
use vstd::utf8::valid_utf8;

verus! {

/// One atom table entry: a length byte followed by that many name bytes.
#[derive(Clone, Debug, PartialEq, Eq)]
pub struct AtomChunkItem {
    pub length: u8,
    pub name: Vec<u8>,
}

impl AtomChunkItem {
    /// The length byte is the name length and the name is well-formed UTF-8.
    pub open spec fn wf(&self) -> bool {
        self.length as nat == self.name@.len() && valid_utf8(self.name@)
    }

    /// The entry's name as text; the decoder only builds entries whose name
    /// bytes are well-formed UTF-8.
    pub fn name(&self) -> (r: &str)
        requires
            valid_utf8(self.name@),
        ensures
            r.spec_bytes() == self.name@,
    {
        match text_of(self.name.as_slice()) {
            Ok(s) => s,
            Err(_) => {
                proof {
                    assert(false);
                }
                ""
            },
        }
    }
}

/// The atom table: a big-endian count, then that many entries in order.
#[derive(Clone, Debug, PartialEq, Eq)]
pub struct AtomTable {
    pub count: u32,
    pub entries: Vec<AtomChunkItem>,
}

/// The name bytes of a sequence of entries, in order.
pub open spec fn names_of(es: Seq<AtomChunkItem>) -> Seq<Seq<u8>> {
    es.map(|i: int, e: AtomChunkItem| e.name@)
}

impl AtomTable {
    pub open spec fn wf(&self) -> bool {
        &&& self.count as nat == self.entries@.len()
        &&& forall|i: int| 0 <= i < self.entries@.len() ==> (#[trigger] self.entries@[i]).wf()
    }

    /// The table's mathematical content: its name byte strings in order.
    pub open spec fn names(&self) -> Seq<Seq<u8>> {
        names_of(self.entries@)
    }
}

/// The wire form of one atom entry: its length byte, then its name bytes.
pub open spec fn atom_entry_bytes(nm: Seq<u8>) -> Seq<u8> {
    seq![nm.len() as u8] + nm
}

/// The wire form of a run of atom entries.
pub open spec fn spec_encode_atom_entries(names: Seq<Seq<u8>>) -> Seq<u8>
    decreases names.len(),
{
    if names.len() == 0 {
        Seq::empty()
    } else {
        atom_entry_bytes(names[0]) + spec_encode_atom_entries(names.drop_first())
    }
}

/// The wire form of an atom table payload: count, then the entries.
pub open spec fn spec_encode_atom_table(names: Seq<Seq<u8>>) -> Seq<u8> {
    be_bytes(names.len() as u32) + spec_encode_atom_entries(names)
}

/// What decoding `n` atom entries at `pos` yields: the names and the end
/// position, `Truncated` when the payload ends early, `InvalidText` when a
/// name is not well-formed UTF-8.
pub open spec fn spec_decode_atom_entries(s: Seq<u8>, pos: int, n: nat) -> Result<
    (Seq<Seq<u8>>, int),
    DecodeError,
>
    decreases n,
{
    if n == 0 {
        Ok((Seq::empty(), pos))
    } else if pos + 1 > s.len() {
        Err(DecodeError::Truncated)
    } else {
        let l = s[pos] as int;
        if pos + 1 + l > s.len() {
            Err(DecodeError::Truncated)
        } else {
            let nm = s.subrange(pos + 1, pos + 1 + l);
            if !valid_utf8(nm) {
                Err(DecodeError::InvalidText)
            } else {
                match spec_decode_atom_entries(s, pos + 1 + l, (n - 1) as nat) {
                    Ok((rest, end)) => Ok((seq![nm] + rest, end)),
                    Err(e) => Err(e),
                }
            }
        }
    }
}

/// What decoding an atom table payload yields.
pub open spec fn spec_decode_atom_table(s: Seq<u8>) -> Result<Seq<Seq<u8>>, DecodeError> {
    if s.len() < 4 {
        Err(DecodeError::Truncated)
    } else {
        match spec_decode_atom_entries(s, 4, be32(s.subrange(0, 4)) as nat) {
            Ok((names, end)) => Ok(names),
            Err(e) => Err(e),
        }
    }
}

/// Decodes an atom table from a chunk payload: a big-endian count, then that
/// many `{length, name}` entries. Trailing payload bytes are ignored. Every
/// name is checked to be well-formed UTF-8.
pub fn decode_atom_table(payload: &[u8]) -> (r: Result<AtomTable, DecodeError>)
    ensures
        ({
            match spec_decode_atom_table(payload@) {
                Ok(names) => r matches Ok(t) && t.wf() && t.names() == names && t.count as nat
                    == names.len(),
                Err(e) => r matches Err(e2) && e2 == e,
            }
        }),
{
    let ghost s = payload@;
    let mut cur = BitCursor::new();
    let count = match cur.read_u32_be(payload) {
        Ok(v) => v,
        Err(_) => {
            return Err(DecodeError::Truncated);
        },
    };
    let mut entries: Vec<AtomChunkItem> = Vec::new();
    let mut k: u32 = 0;
    while k < count
        invariant
            cur.wf(),
            cur.bit == 0,
            cur.byte <= s.len(),
            s == payload@,
            k <= count,
            entries@.len() == k,
            forall|i: int| 0 <= i < k ==> (#[trigger] entries@[i]).wf(),
            s.len() >= 4,
            count == be32(s.subrange(0, 4)),
            ({
                let full = spec_decode_atom_entries(s, 4, count as nat);
                match spec_decode_atom_entries(s, cur.byte as int, (count - k) as nat) {
                    Ok((rest, end)) => full == Ok::<(Seq<Seq<u8>>, int), DecodeError>(
                        (names_of(entries@) + rest, end),
                    ),
                    Err(e) => full == Err::<(Seq<Seq<u8>>, int), DecodeError>(e),
                }
            }),
        decreases count - k,
    {
        let ghost pos = cur.byte as int;
        let lv = match cur.read_bytes(payload, 1) {
            Ok(v) => v,
            Err(_) => {
                return Err(DecodeError::Truncated);
            },
        };
        let l = lv[0];
        proof {
            assert(lv@[0] == s.subrange(pos, pos + 1)[0]);
        }
        let nm = match cur.read_bytes(payload, l as usize) {
            Ok(v) => v,
            Err(_) => {
                return Err(DecodeError::Truncated);
            },
        };
        if !is_valid_utf8(nm.as_slice()) {
            return Err(DecodeError::InvalidText);
        }
        let entry = AtomChunkItem { length: l, name: nm };
        proof {
            let rest_dec = spec_decode_atom_entries(s, cur.byte as int, (count - k - 1) as nat);
            if rest_dec is Ok {
                let (rest, end) = rest_dec->Ok_0;
                assert(names_of(entries@) + (seq![entry.name@] + rest) =~= names_of(
                    entries@.push(entry),
                ) + rest);
            }
        }
        entries.push(entry);
        k = k + 1;
    }
    proof {
        assert(names_of(entries@) + Seq::<Seq<u8>>::empty() =~= names_of(entries@));
    }
    Ok(AtomTable { count, entries })
}

/// Appends the wire form of an atom table: count, then every entry.
pub fn encode_atom_table(t: &AtomTable, out: &mut Vec<u8>)
    requires
        t.wf(),
    ensures
        final(out)@ == old(out)@ + spec_encode_atom_table(t.names()),
{
    push_be32(out, t.count);
    let ghost names = t.names();
    let mut k: usize = 0;
    while k < t.entries.len()
        invariant
            t.wf(),
            names == t.names(),
            k <= t.entries@.len(),
            out@ == old(out)@ + be_bytes(t.count) + spec_encode_atom_entries(
                names.take(k as int),
            ),
        decreases t.entries@.len() - k,
    {
        let e = &t.entries[k];
        out.push(e.length);
        push_all(out, &e.name);
        proof {
            assert(names[k as int] == e.name@);
            assert(atom_entry_bytes(e.name@) =~= seq![e.length] + e.name@);
            lemma_atom_entries_push(names.take(k as int), e.name@);
            assert(names.take(k + 1) =~= names.take(k as int).push(e.name@));
            assert(out@ =~= old(out)@ + be_bytes(t.count) + spec_encode_atom_entries(
                names.take(k + 1),
            ));
        }
        k = k + 1;
    }
    proof {
        assert(names.take(names.len() as int) =~= names);
        assert(out@ =~= old(out)@ + spec_encode_atom_table(names));
    }
}

/// Appending one entry to the encoded run appends its wire form.
pub proof fn lemma_atom_entries_push(names: Seq<Seq<u8>>, nm: Seq<u8>)
    ensures
        spec_encode_atom_entries(names.push(nm)) == spec_encode_atom_entries(names)
            + atom_entry_bytes(nm),
    decreases names.len(),
{
    if names.len() == 0 {
        assert(names.push(nm)[0] == nm);
        assert(names.push(nm).drop_first() =~= Seq::<Seq<u8>>::empty());
        assert(spec_encode_atom_entries(Seq::<Seq<u8>>::empty()) =~= Seq::<u8>::empty());
        assert(atom_entry_bytes(nm) + Seq::<u8>::empty() =~= atom_entry_bytes(nm));
        assert(Seq::<u8>::empty() + atom_entry_bytes(nm) =~= atom_entry_bytes(nm));
    } else {
        assert(names.push(nm)[0] == names[0]);
        assert(names.push(nm).drop_first() =~= names.drop_first().push(nm));
        lemma_atom_entries_push(names.drop_first(), nm);
        assert(atom_entry_bytes(names[0]) + (spec_encode_atom_entries(names.drop_first())
            + atom_entry_bytes(nm)) =~= (atom_entry_bytes(names[0]) + spec_encode_atom_entries(
            names.drop_first(),
        )) + atom_entry_bytes(nm));
    }
}

/// Decoding an encoded run of atom entries gives back exactly those names.
pub proof fn lemma_atom_entries_round_trip(s: Seq<u8>, pos: int, names: Seq<Seq<u8>>)
    requires
        0 <= pos,
        pos + spec_encode_atom_entries(names).len() <= s.len(),
        s.subrange(pos, pos + spec_encode_atom_entries(names).len() as int)
            == spec_encode_atom_entries(names),
        forall|i: int|
            0 <= i < names.len() ==> (#[trigger] names[i]).len() <= 255 && valid_utf8(names[i]),
    ensures
        spec_decode_atom_entries(s, pos, names.len()) == Ok::<(Seq<Seq<u8>>, int), DecodeError>(
            (names, pos + spec_encode_atom_entries(names).len() as int),
        ),
    decreases names.len(),
{
    if names.len() == 0 {
        assert(names =~= Seq::<Seq<u8>>::empty());
    } else {
        let nm = names[0];
        let l = nm.len() as int;
        let e = spec_encode_atom_entries(names);
        let w = e.len() as int;
        let erest = spec_encode_atom_entries(names.drop_first());
        assert(atom_entry_bytes(nm).len() == 1 + l);
        assert(w == 1 + l + erest.len());
        assert(s.subrange(pos, pos + w)[0] == e[0]);
        assert(e[0] == nm.len() as u8);
        assert(s[pos] == nm.len() as u8);
        assert forall|j: int| 0 <= j < l implies s.subrange(pos + 1, pos + 1 + l)[j] == nm[j] by {
            assert(s.subrange(pos, pos + w)[1 + j] == e[1 + j]);
            assert(e[1 + j] == atom_entry_bytes(nm)[1 + j]);
        }
        assert(s.subrange(pos + 1, pos + 1 + l) =~= nm);
        let rest = names.drop_first();
        assert forall|j: int|
            0 <= j < erest.len() implies s.subrange(pos + 1 + l, pos + 1 + l + erest.len() as int)[j]
            == erest[j] by {
            assert(s.subrange(pos, pos + w)[1 + l + j] == e[1 + l + j]);
            assert(e[1 + l + j] == erest[j]);
        }
        assert(s.subrange(pos + 1 + l, pos + 1 + l + erest.len() as int) =~= erest);
        assert forall|i: int|
            0 <= i < rest.len() implies (#[trigger] rest[i]).len() <= 255 && valid_utf8(rest[i]) by {
            assert(rest[i] == names[i + 1]);
        }
        lemma_atom_entries_round_trip(s, pos + 1 + l, rest);
        assert(rest.len() == names.len() - 1);
        assert(seq![nm] + rest =~= names);
        assert(spec_decode_atom_entries(s, pos, names.len()) == Ok::<
            (Seq<Seq<u8>>, int),
            DecodeError,
        >((seq![nm] + rest, pos + w)));
    }
}

/// One export table entry: three big-endian 32-bit fields.
#[derive(Clone, Copy, Debug, PartialEq, Eq, Structural)]
pub struct ExportEntry {
    pub function_atom_index: u32,
    pub arity: u32,
    pub entry_label: u32,
}

/// The export table: a big-endian count, then that many 12-byte entries.
#[derive(Clone, Debug, PartialEq, Eq)]
pub struct ExportTable {
    pub count: u32,
    pub entries: Vec<ExportEntry>,
}

impl ExportTable {
    pub open spec fn wf(&self) -> bool {
        self.count as nat == self.entries@.len()
    }
}

/// The 12-byte wire form of one export entry.
pub open spec fn export_entry_bytes(x: ExportEntry) -> Seq<u8> {
    be_bytes(x.function_atom_index) + be_bytes(x.arity) + be_bytes(x.entry_label)
}

/// The wire form of a run of export entries.
pub open spec fn spec_encode_export_entries(es: Seq<ExportEntry>) -> Seq<u8>
    decreases es.len(),
{
    if es.len() == 0 {
        Seq::empty()
    } else {
        export_entry_bytes(es[0]) + spec_encode_export_entries(es.drop_first())
    }
}

/// The wire form of an export table payload: count, then the entries.
pub open spec fn spec_encode_export_table(es: Seq<ExportEntry>) -> Seq<u8> {
    be_bytes(es.len() as u32) + spec_encode_export_entries(es)
}

/// What decoding `n` export entries at `pos` yields.
pub open spec fn spec_decode_export_entries(s: Seq<u8>, pos: int, n: nat) -> Result<
    (Seq<ExportEntry>, int),
    DecodeError,
>
    decreases n,
{
    if n == 0 {
        Ok((Seq::empty(), pos))
    } else if pos + 12 > s.len() {
        Err(DecodeError::Truncated)
    } else {
        let x = ExportEntry {
            function_atom_index: be32(s.subrange(pos, pos + 4)),
            arity: be32(s.subrange(pos + 4, pos + 8)),
            entry_label: be32(s.subrange(pos + 8, pos + 12)),
        };
        match spec_decode_export_entries(s, pos + 12, (n - 1) as nat) {
            Ok((rest, end)) => Ok((seq![x] + rest, end)),
            Err(e) => Err(e),
        }
    }
}

/// What decoding an export table payload yields.
pub open spec fn spec_decode_export_table(s: Seq<u8>) -> Result<Seq<ExportEntry>, DecodeError> {
    if s.len() < 4 {
        Err(DecodeError::Truncated)
    } else {
        match spec_decode_export_entries(s, 4, be32(s.subrange(0, 4)) as nat) {
            Ok((es, end)) => Ok(es),
            Err(e) => Err(e),
        }
    }
}

/// Decodes an export table from a chunk payload: a big-endian count, then
/// that many fixed 12-byte records. Trailing payload bytes are ignored.
pub fn decode_export_table(payload: &[u8]) -> (r: Result<ExportTable, DecodeError>)
    ensures
        ({
            match spec_decode_export_table(payload@) {
                Ok(es) => r matches Ok(t) && t.wf() && t.entries@ == es && t.count as nat
                    == es.len(),
                Err(e) => r matches Err(e2) && e2 == e,
            }
        }),
{
    let ghost s = payload@;
    let mut cur = BitCursor::new();
    let count = match cur.read_u32_be(payload) {
        Ok(v) => v,
        Err(_) => {
            return Err(DecodeError::Truncated);
        },
    };
    let mut entries: Vec<ExportEntry> = Vec::new();
    let mut k: u32 = 0;
    while k < count
        invariant
            cur.wf(),
            cur.bit == 0,
            cur.byte <= s.len(),
            s == payload@,
            k <= count,
            entries@.len() == k,
            s.len() >= 4,
            count == be32(s.subrange(0, 4)),
            ({
                let full = spec_decode_export_entries(s, 4, count as nat);
                match spec_decode_export_entries(s, cur.byte as int, (count - k) as nat) {
                    Ok((rest, end)) => full == Ok::<(Seq<ExportEntry>, int), DecodeError>(
                        (entries@ + rest, end),
                    ),
                    Err(e) => full == Err::<(Seq<ExportEntry>, int), DecodeError>(e),
                }
            }),
        decreases count - k,
    {
        let ghost pos = cur.byte as int;
        let f = match cur.read_u32_be(payload) {
            Ok(v) => v,
            Err(_) => {
                return Err(DecodeError::Truncated);
            },
        };
        let a = match cur.read_u32_be(payload) {
            Ok(v) => v,
            Err(_) => {
                return Err(DecodeError::Truncated);
            },
        };
        let lb = match cur.read_u32_be(payload) {
            Ok(v) => v,
            Err(_) => {
                return Err(DecodeError::Truncated);
            },
        };
        let entry = ExportEntry { function_atom_index: f, arity: a, entry_label: lb };
        proof {
            let rest_dec = spec_decode_export_entries(s, cur.byte as int, (count - k - 1) as nat);
            if rest_dec is Ok {
                let (rest, end) = rest_dec->Ok_0;
                assert(entries@ + (seq![entry] + rest) =~= entries@.push(entry) + rest);
            }
        }
        entries.push(entry);
        k = k + 1;
    }
    proof {
        assert(entries@ + Seq::<ExportEntry>::empty() =~= entries@);
    }
    Ok(ExportTable { count, entries })
}

/// Appends the wire form of an export table: count, then every entry.
pub fn encode_export_table(t: &ExportTable, out: &mut Vec<u8>)
    requires
        t.wf(),
    ensures
        final(out)@ == old(out)@ + spec_encode_export_table(t.entries@),
{
    push_be32(out, t.count);
    let ghost es = t.entries@;
    let mut k: usize = 0;
    while k < t.entries.len()
        invariant
            t.wf(),
            es == t.entries@,
            k <= es.len(),
            out@ == old(out)@ + be_bytes(t.count) + spec_encode_export_entries(es.take(k as int)),
        decreases es.len() - k,
    {
        let e = t.entries[k];
        push_be32(out, e.function_atom_index);
        push_be32(out, e.arity);
        push_be32(out, e.entry_label);
        proof {
            lemma_export_entries_push(es.take(k as int), e);
            assert(es.take(k + 1) =~= es.take(k as int).push(e));
            assert(out@ =~= old(out)@ + be_bytes(t.count) + spec_encode_export_entries(
                es.take(k + 1),
            ));
        }
        k = k + 1;
    }
    proof {
        assert(es.take(es.len() as int) =~= es);
        assert(out@ =~= old(out)@ + spec_encode_export_table(es));
    }
}

/// Appending one entry to the encoded run appends its wire form.
pub proof fn lemma_export_entries_push(es: Seq<ExportEntry>, x: ExportEntry)
    ensures
        spec_encode_export_entries(es.push(x)) == spec_encode_export_entries(es)
            + export_entry_bytes(x),
    decreases es.len(),
{
    if es.len() == 0 {
        assert(es.push(x)[0] == x);
        assert(es.push(x).drop_first() =~= Seq::<ExportEntry>::empty());
        assert(spec_encode_export_entries(Seq::<ExportEntry>::empty()) =~= Seq::<u8>::empty());
        assert(export_entry_bytes(x) + Seq::<u8>::empty() =~= export_entry_bytes(x));
        assert(Seq::<u8>::empty() + export_entry_bytes(x) =~= export_entry_bytes(x));
    } else {
        assert(es.push(x)[0] == es[0]);
        assert(es.push(x).drop_first() =~= es.drop_first().push(x));
        lemma_export_entries_push(es.drop_first(), x);
        assert(export_entry_bytes(es[0]) + (spec_encode_export_entries(es.drop_first())
            + export_entry_bytes(x)) =~= (export_entry_bytes(es[0]) + spec_encode_export_entries(
            es.drop_first(),
        )) + export_entry_bytes(x));
    }
}

/// Decoding an encoded run of export entries gives back exactly those entries.
pub proof fn lemma_export_entries_round_trip(s: Seq<u8>, pos: int, es: Seq<ExportEntry>)
    requires
        0 <= pos,
        pos + spec_encode_export_entries(es).len() <= s.len(),
        s.subrange(pos, pos + spec_encode_export_entries(es).len() as int)
            == spec_encode_export_entries(es),
    ensures
        spec_decode_export_entries(s, pos, es.len()) == Ok::<(Seq<ExportEntry>, int), DecodeError>(
            (es, pos + spec_encode_export_entries(es).len() as int),
        ),
    decreases es.len(),
{
    if es.len() == 0 {
        assert(es =~= Seq::<ExportEntry>::empty());
    } else {
        let x = es[0];
        let e = spec_encode_export_entries(es);
        let w = e.len() as int;
        let erest = spec_encode_export_entries(es.drop_first());
        assert(export_entry_bytes(x).len() == 12);
        assert(w == 12 + erest.len());
        assert forall|j: int| 0 <= j < 12 implies s[pos + j] == export_entry_bytes(x)[j] by {
            assert(s.subrange(pos, pos + w)[j] == e[j]);
            assert(e[j] == export_entry_bytes(x)[j]);
        }
        assert forall|j: int| 0 <= j < 4 implies s.subrange(pos, pos + 4)[j] == be_bytes(
            x.function_atom_index,
        )[j] by {
            assert(s[pos + j] == export_entry_bytes(x)[j]);
        }
        assert forall|j: int| 0 <= j < 4 implies s.subrange(pos + 4, pos + 8)[j] == be_bytes(
            x.arity,
        )[j] by {
            assert(s[pos + (j + 4)] == export_entry_bytes(x)[j + 4]);
        }
        assert forall|j: int| 0 <= j < 4 implies s.subrange(pos + 8, pos + 12)[j] == be_bytes(
            x.entry_label,
        )[j] by {
            assert(s[pos + (j + 8)] == export_entry_bytes(x)[j + 8]);
        }
        assert(s.subrange(pos, pos + 4) =~= be_bytes(x.function_atom_index));
        assert(s.subrange(pos + 4, pos + 8) =~= be_bytes(x.arity));
        assert(s.subrange(pos + 8, pos + 12) =~= be_bytes(x.entry_label));
        lemma_be32_of_be_bytes(x.function_atom_index);
        lemma_be32_of_be_bytes(x.arity);
        lemma_be32_of_be_bytes(x.entry_label);
        let rest = es.drop_first();
        assert forall|j: int|
            0 <= j < erest.len() implies s.subrange(pos + 12, pos + 12 + erest.len() as int)[j]
            == erest[j] by {
            assert(s.subrange(pos, pos + w)[12 + j] == e[12 + j]);
            assert(e[12 + j] == erest[j]);
        }
        assert(s.subrange(pos + 12, pos + 12 + erest.len() as int) =~= erest);
        lemma_export_entries_round_trip(s, pos + 12, rest);
        assert(seq![x] + rest =~= es);
        assert(spec_decode_export_entries(s, pos, es.len()) == Ok::<
            (Seq<ExportEntry>, int),
            DecodeError,
        >((seq![x] + rest, pos + w)));
    }
}

/// Decoding an encoded export table gives back exactly its entries (the
/// payload side of the round trip).
pub proof fn lemma_export_table_round_trip(es: Seq<ExportEntry>)
    requires
        es.len() <= u32::MAX,
    ensures
        spec_decode_export_table(spec_encode_export_table(es)) == Ok::<
            Seq<ExportEntry>,
            DecodeError,
        >(es),
{
    let cnt = es.len() as u32;
    let s = spec_encode_export_table(es);
    let e = spec_encode_export_entries(es);
    assert(be_bytes(cnt).len() == 4);
    lemma_be32_of_be_bytes(cnt);
    assert(s.subrange(0, 4) =~= be_bytes(cnt));
    assert(s.subrange(4, 4 + e.len() as int) =~= e);
    lemma_export_entries_round_trip(s, 4, es);
}

/// Decoding an encoded atom table gives back exactly its names (the payload
/// side of the round trip).
pub proof fn lemma_atom_table_round_trip(names: Seq<Seq<u8>>)
    requires
        names.len() <= u32::MAX,
        forall|i: int|
            0 <= i < names.len() ==> (#[trigger] names[i]).len() <= 255 && valid_utf8(names[i]),
    ensures
        spec_decode_atom_table(spec_encode_atom_table(names)) == Ok::<Seq<Seq<u8>>, DecodeError>(
            names,
        ),
{
    let cnt = names.len() as u32;
    let s = spec_encode_atom_table(names);
    let e = spec_encode_atom_entries(names);
    assert(be_bytes(cnt).len() == 4);
    lemma_be32_of_be_bytes(cnt);
    assert(s.subrange(0, 4) =~= be_bytes(cnt));
    assert(s.subrange(4, 4 + e.len() as int) =~= e);
    lemma_atom_entries_round_trip(s, 4, names);
}

} // verus!
