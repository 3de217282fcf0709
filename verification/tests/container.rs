use beamfile::container::{
    decode_chunk_body, decode_chunks, decode_header, encode_chunk, encode_header, next_chunk,
    Chunk, ChunkBody, ModuleHeader,
};
use beamfile::cursor::BitCursor;
use beamfile::error::DecodeError;
use beamfile::tables::{
    decode_atom_table, decode_export_table, encode_atom_table, encode_export_table, AtomChunkItem,
    AtomTable, ExportEntry, ExportTable,
};

fn header_bytes() -> Vec<u8> {
    vec![
        0x46, 0x4F, 0x52, 0x31, // "FOR1"
        0x00, 0x00, 0x01, 0x01, // 257
        0x42, 0x45, 0x41, 0x4D, // "BEAM"
    ]
}

#[test]
fn parse_beam_header_correct() {
    let data = header_bytes();
    let mut cur = BitCursor::new();
    let h = decode_header(&data, &mut cur).unwrap();
    assert_eq!(h.declared_size, 257);
    assert_eq!(cur.byte_position(), 12);
}

#[test]
fn parse_beam_header_invalid_beam_magic() {
    let mut data = header_bytes();
    data[11] = 0x78; // "BEAx"
    let mut cur = BitCursor::new();
    let e = decode_header(&data, &mut cur).unwrap_err();
    assert_eq!(e, DecodeError::MagicMismatch);
}

#[test]
fn header_invalid_container_magic() {
    let mut data = header_bytes();
    data[0] = 0x58;
    let mut cur = BitCursor::new();
    assert_eq!(
        decode_header(&data, &mut cur).unwrap_err(),
        DecodeError::MagicMismatch
    );
}

#[test]
fn header_truncated() {
    let data = vec![0x46, 0x4F, 0x52, 0x31, 0x00];
    let mut cur = BitCursor::new();
    assert_eq!(
        decode_header(&data, &mut cur).unwrap_err(),
        DecodeError::Truncated
    );
    assert_eq!(cur.byte_position(), 0);
}

#[test]
fn header_round_trip() {
    let h = ModuleHeader { declared_size: 257 };
    let mut out: Vec<u8> = Vec::new();
    encode_header(&h, &mut out);
    assert_eq!(out, header_bytes());
    let mut cur = BitCursor::new();
    let h2 = decode_header(&out, &mut cur).unwrap();
    assert_eq!(h, h2);
    let mut again: Vec<u8> = Vec::new();
    encode_header(&h2, &mut again);
    assert_eq!(out, again);
}

fn zzzz_chunk_bytes() -> Vec<u8> {
    vec![
        0x5A, 0x7A, 0x7A, 0x7A, // "Zzzz"
        0x00, 0x00, 0x00, 0x05, // size 5
        9, 8, 7, 6, 5, // payload
        0, 0, 0, // padding to a multiple of 4
    ]
}

#[test]
fn chunk_size_five_advances_sixteen() {
    let data = zzzz_chunk_bytes();
    let mut cur = BitCursor::new();
    let c = next_chunk(&data, &mut cur).unwrap().unwrap();
    assert_eq!(c.tag, vec![0x5A, 0x7A, 0x7A, 0x7A]);
    assert_eq!(c.size, 5);
    assert_eq!(c.payload, vec![9, 8, 7, 6, 5]);
    assert_eq!(cur.byte_position(), 16);
}

#[test]
fn chunk_end_of_buffer_is_none() {
    let data: Vec<u8> = Vec::new();
    let mut cur = BitCursor::new();
    assert!(next_chunk(&data, &mut cur).unwrap().is_none());
}

#[test]
fn chunk_truncated_payload() {
    // declares size 5 but only 2 payload bytes follow
    let data = vec![0x5A, 0x7A, 0x7A, 0x7A, 0x00, 0x00, 0x00, 0x05, 9, 8];
    let mut cur = BitCursor::new();
    assert_eq!(
        next_chunk(&data, &mut cur).unwrap_err(),
        DecodeError::Truncated
    );
    assert_eq!(cur.byte_position(), 0);
}

#[test]
fn chunk_round_trip() {
    let c = Chunk {
        tag: vec![0x5A, 0x7A, 0x7A, 0x7A],
        size: 5,
        payload: vec![9, 8, 7, 6, 5],
    };
    let mut out: Vec<u8> = Vec::new();
    encode_chunk(&c, &mut out);
    assert_eq!(out, zzzz_chunk_bytes());
    let mut cur = BitCursor::new();
    let c2 = next_chunk(&out, &mut cur).unwrap().unwrap();
    assert_eq!(c, c2);
    let mut again: Vec<u8> = Vec::new();
    encode_chunk(&c2, &mut again);
    assert_eq!(out, again);
}

#[test]
fn chunk_name_text() {
    let c = Chunk {
        tag: vec![0x5A, 0x7A, 0x7A, 0x7A],
        size: 0,
        payload: vec![],
    };
    assert_eq!(c.name().unwrap(), "Zzzz");
    let bad = Chunk {
        tag: vec![0xFF, 0x7A, 0x7A, 0x7A],
        size: 0,
        payload: vec![],
    };
    assert_eq!(bad.name().unwrap_err(), DecodeError::InvalidText);
}

fn atom_payload() -> Vec<u8> {
    vec![0, 0, 0, 2, 3, 97, 98, 99, 1, 122]
}

#[test]
fn atom_table_two_entries() {
    let t = decode_atom_table(&atom_payload()).unwrap();
    assert_eq!(t.count, 2);
    assert_eq!(t.entries.len(), 2);
    assert_eq!(t.entries[0].length, 3);
    assert_eq!(t.entries[0].name, b"abc".to_vec());
    assert_eq!(t.entries[0].name(), "abc");
    assert_eq!(t.entries[1].length, 1);
    assert_eq!(t.entries[1].name(), "z");
}

#[test]
fn atom_table_consumes_exactly_ten_bytes() {
    // trailing payload bytes past the declared entries are ignored
    let mut data = atom_payload();
    data.extend_from_slice(&[0xAA, 0xBB]);
    let t = decode_atom_table(&data).unwrap();
    let u = decode_atom_table(&atom_payload()).unwrap();
    assert_eq!(t, u);
}

#[test]
fn atom_table_invalid_text() {
    let data = vec![0, 0, 0, 1, 1, 0xFF];
    assert_eq!(
        decode_atom_table(&data).unwrap_err(),
        DecodeError::InvalidText
    );
}

#[test]
fn atom_table_truncated() {
    let data = vec![0, 0, 0, 2, 3, 97];
    assert_eq!(
        decode_atom_table(&data).unwrap_err(),
        DecodeError::Truncated
    );
    let short = vec![0, 0];
    assert_eq!(
        decode_atom_table(&short).unwrap_err(),
        DecodeError::Truncated
    );
}

#[test]
fn atom_table_multibyte_name() {
    // "αβ" encodes as two 2-byte scalars
    let data = vec![0, 0, 0, 1, 4, 0xCE, 0xB1, 0xCE, 0xB2];
    let t = decode_atom_table(&data).unwrap();
    assert_eq!(t.entries[0].name(), "\u{3b1}\u{3b2}");
}

#[test]
fn atom_table_round_trip() {
    let t = AtomTable {
        count: 2,
        entries: vec![
            AtomChunkItem {
                length: 3,
                name: b"abc".to_vec(),
            },
            AtomChunkItem {
                length: 1,
                name: b"z".to_vec(),
            },
        ],
    };
    let mut out: Vec<u8> = Vec::new();
    encode_atom_table(&t, &mut out);
    assert_eq!(out, atom_payload());
    let t2 = decode_atom_table(&out).unwrap();
    assert_eq!(t, t2);
    let mut again: Vec<u8> = Vec::new();
    encode_atom_table(&t2, &mut again);
    assert_eq!(out, again);
}

fn export_payload() -> Vec<u8> {
    vec![0, 0, 0, 1, 0, 0, 0, 7, 0, 0, 0, 2, 0, 0, 0, 9]
}

#[test]
fn export_table_one_entry() {
    let t = decode_export_table(&export_payload()).unwrap();
    assert_eq!(t.count, 1);
    assert_eq!(
        t.entries[0],
        ExportEntry {
            function_atom_index: 7,
            arity: 2,
            entry_label: 9,
        }
    );
}

#[test]
fn export_table_truncated() {
    let data = vec![0, 0, 0, 1, 0, 0, 0, 7];
    assert_eq!(
        decode_export_table(&data).unwrap_err(),
        DecodeError::Truncated
    );
}

#[test]
fn export_table_round_trip() {
    let t = ExportTable {
        count: 2,
        entries: vec![
            ExportEntry {
                function_atom_index: 7,
                arity: 2,
                entry_label: 9,
            },
            ExportEntry {
                function_atom_index: 1,
                arity: 0,
                entry_label: 3,
            },
        ],
    };
    let mut out: Vec<u8> = Vec::new();
    encode_export_table(&t, &mut out);
    let t2 = decode_export_table(&out).unwrap();
    assert_eq!(t, t2);
    let mut again: Vec<u8> = Vec::new();
    encode_export_table(&t2, &mut again);
    assert_eq!(out, again);
}

#[test]
fn unknown_chunk_is_opaque_and_iteration_continues() {
    // a whole module: header, an unknown "Zzzz" chunk, then an "AtU8" chunk
    let mut data = header_bytes();
    data.extend_from_slice(&zzzz_chunk_bytes());
    let atoms = atom_payload();
    data.extend_from_slice(&[0x41, 0x74, 0x55, 0x38]); // "AtU8"
    data.extend_from_slice(&[0, 0, 0, atoms.len() as u8]);
    data.extend_from_slice(&atoms);
    data.extend_from_slice(&[0, 0]); // pad 10 to 12
    let (h, chunks) = decode_chunks(&data).unwrap();
    assert_eq!(h.declared_size, 257);
    assert_eq!(chunks.len(), 2);
    match decode_chunk_body(&chunks[0]).unwrap() {
        ChunkBody::Other(p) => assert_eq!(p, vec![9, 8, 7, 6, 5]),
        other => panic!("expected an opaque body, got {:?}", other),
    }
    match decode_chunk_body(&chunks[1]).unwrap() {
        ChunkBody::Atoms(t) => {
            assert_eq!(t.count, 2);
            assert_eq!(t.entries[0].name(), "abc");
            assert_eq!(t.entries[1].name(), "z");
        },
        other => panic!("expected an atom table, got {:?}", other),
    }
}

#[test]
fn export_chunk_dispatch() {
    let payload = export_payload();
    let c = Chunk {
        tag: vec![0x45, 0x78, 0x70, 0x54], // "ExpT"
        size: payload.len() as u32,
        payload,
    };
    match decode_chunk_body(&c).unwrap() {
        ChunkBody::Exports(t) => {
            assert_eq!(t.count, 1);
            assert_eq!(t.entries[0].arity, 2);
        },
        other => panic!("expected an export table, got {:?}", other),
    }
}

#[test]
fn decode_chunks_reports_truncation() {
    let mut data = header_bytes();
    data.extend_from_slice(&[0x5A, 0x7A, 0x7A, 0x7A, 0x00, 0x00, 0x00, 0x09, 1, 2]);
    assert_eq!(decode_chunks(&data).unwrap_err(), DecodeError::Truncated);
}
