//! Log records and their frames.
use stromadb::catalog::Cardinality;
use stromadb::changelog::WriteKind;
use stromadb::fact::FieldId;
use stromadb::fold::{ObjKey, OrderKey};
use stromadb::wal::{
    checksum, decode_record, encode_payload, frame_record, frame_wal_start, put_objkey, put_u32,
    put_u64, recover,
};

fn roundtrip(source: FieldId, kind: WriteKind) {
    let mut buf = Vec::new();
    frame_record(&mut buf, source, &kind);
    let recovered = {
        // strip the [len][crc] header and decode the payload directly
        let len = u32::from_le_bytes(buf[0..4].try_into().unwrap()) as usize;
        decode_record(&buf[8..8 + len]).unwrap()
    };
    assert_eq!(recovered.0, source);
    // WriteKind has no PartialEq; compare via debug repr (sufficient for the codec).
    assert_eq!(format!("{:?}", recovered.1), format!("{kind:?}"));
}

#[test]
fn codec_roundtrips_every_variant() {
    roundtrip(
        7,
        WriteKind::SetOne {
            subject: 42,
            predicate: 3,
            object: ObjKey::Text("héllo".into()),
            valid_from: -100,
            valid_to: Some(500),
        },
    );
    roundtrip(
        0,
        WriteKind::CloseOne {
            subject: 1,
            predicate: 2,
            valid_from: 9,
        },
    );
    roundtrip(
        5,
        WriteKind::AddMany {
            subject: 8,
            predicate: 4,
            object: ObjKey::Node(99),
            valid_from: 123,
            valid_to: Some(456),
        },
    );
    roundtrip(
        5,
        WriteKind::AddMany {
            subject: 8,
            predicate: 4,
            object: ObjKey::Float(1.5f64.to_bits()),
            valid_from: 0,
            valid_to: None,
        },
    );
    roundtrip(
        2,
        WriteKind::RemoveMany {
            subject: 8,
            predicate: 4,
            observed: vec![
                OrderKey {
                    tx: 1,
                    source: 2,
                    seq: 3,
                },
                OrderKey {
                    tx: 4,
                    source: 5,
                    seq: 6,
                },
            ],
        },
    );
    roundtrip(
        1,
        WriteKind::HardDelete {
            subject: 8,
            predicate: 4,
            cardinality: Cardinality::Many,
        },
    );
    roundtrip(
        3,
        WriteKind::SetEdgeProp {
            subject: 8,
            predicate: 4,
            object: ObjKey::Node(9),
            key: "since".into(),
            value: ObjKey::Int(2020),
        },
    );
    roundtrip(
        6,
        WriteKind::SetNodeType {
            node: 77,
            type_id: 12,
        },
    );
    roundtrip(
        0,
        WriteKind::SetNodeLabel {
            node: 77,
            label: 200,
        },
    );
    roundtrip(
        5,
        WriteKind::CloseMany {
            subject: 8,
            predicate: 4,
            object: ObjKey::Node(99),
            valid_from: -7,
        },
    );
}

#[test]
fn old_format_add_many_without_valid_time_decodes_as_unreported() {
    // A pre-valid-time AddMany record ends right after the object — hand-build one and check
    // it decodes with `valid_from = 0`, open `valid_to` (the backward-compat contract).
    let mut payload = Vec::new();
    put_u32(&mut payload, 9); // source
    payload.push(2); // AddMany tag
    put_u64(&mut payload, 8); // subject
    put_u32(&mut payload, 4); // predicate
    put_objkey(&mut payload, &ObjKey::Node(99));
    let (source, kind) = decode_record(&payload).unwrap();
    assert_eq!(source, 9);
    assert!(matches!(
        kind,
        WriteKind::AddMany {
            subject: 8,
            predicate: 4,
            object: ObjKey::Node(99),
            valid_from: 0,
            valid_to: None,
        }
    ));
}

#[test]
fn corrupt_checksum_is_undecodable_tail() {
    let mut buf = Vec::new();
    frame_record(
        &mut buf,
        0,
        &WriteKind::AddMany {
            subject: 1,
            predicate: 2,
            object: ObjKey::Node(3),
            valid_from: 0,
            valid_to: None,
        },
    );
    // flip a payload byte → checksum mismatch on recovery
    let last = buf.len() - 1;
    buf[last] ^= 0xff;
    let len = u32::from_le_bytes(buf[0..4].try_into().unwrap());
    let crc = u32::from_le_bytes(buf[4..8].try_into().unwrap());
    assert_ne!(checksum(&buf[8..8 + len as usize]), crc);
}

fn label(node: u64, label: u8) -> WriteKind {
    WriteKind::SetNodeLabel { node, label }
}

#[test]
fn a_log_is_recovered_up_to_its_first_bad_frame() {
    let mut buf = Vec::new();
    frame_record(&mut buf, 4, &label(1, 1));
    let first = buf.len();
    frame_record(&mut buf, 5, &label(2, 2));
    frame_record(&mut buf, 6, &label(3, 3));
    let (base, recs) = recover(&buf);
    assert_eq!((base, recs.len()), (0, 3));
    assert_eq!(recs[2].0, 6);
    // a torn last frame is dropped
    assert_eq!(recover(&buf[..buf.len() - 1]).1.len(), 2);
    // a corrupt frame ends the log, whatever follows
    buf[first + 8] ^= 1;
    assert_eq!(recover(&buf).1.len(), 1);
    assert_eq!(recover(&[]).1.len(), 0);
}

#[test]
fn a_started_log_counts_on() {
    let mut buf = Vec::new();
    frame_wal_start(&mut buf, 41);
    assert_eq!((recover(&buf).0, recover(&buf).1.len()), (41, 0));
    frame_record(&mut buf, 0, &label(1, 1));
    assert_eq!((recover(&buf).0, recover(&buf).1.len()), (41, 1));
}

#[test]
fn text_that_is_not_utf8_is_no_record() {
    let mut buf = Vec::new();
    frame_record(
        &mut buf,
        0,
        &WriteKind::SetOne {
            subject: 1,
            predicate: 2,
            object: ObjKey::Text("ab".into()),
            valid_from: 0,
            valid_to: None,
        },
    );
    let mut payload = buf[8..].to_vec();
    assert!(decode_record(&payload).is_some());
    let at = payload.windows(2).position(|w| w == b"ab").unwrap();
    payload[at] = 0xff;
    assert!(decode_record(&payload).is_none());
    // nor is a tag that is not known, nor an empty one
    assert!(decode_record(&[0, 0, 0, 0, 250]).is_none());
    assert!(decode_record(&[]).is_none());
}

#[test]
fn the_checksum_is_fnv() {
    assert_eq!(checksum(b""), 0x811c_9dc5);
    assert_eq!(checksum(b"a"), 0xe40c_292c);
    assert_eq!(checksum(b"foobar"), 0xbf9c_f968);
}

#[test]
fn a_record_is_its_whole_payload() {
    let mut buf = Vec::new();
    frame_record(&mut buf, 258, &WriteKind::SetNodeType { node: 0x0102_0304_0506_0708, type_id: 9 });
    let mut payload = buf[8..].to_vec();
    // numbers have their low byte first
    assert_eq!(payload[..5], [2, 1, 0, 0, 6]);
    assert_eq!(payload[5..13], [8, 7, 6, 5, 4, 3, 2, 1]);
    assert!(decode_record(&payload).is_some());
    payload.push(0);
    assert!(decode_record(&payload).is_none());
}

#[test]
fn a_payload_is_appended_and_tells_records_apart() {
    let close = WriteKind::CloseOne { subject: 1, predicate: 2, valid_from: 9 };
    let mut buf = vec![1u8, 2];
    encode_payload(&mut buf, 5, &close);
    assert_eq!(buf[..7], [1, 2, 5, 0, 0, 0, 1]);
    let (source, kind) = decode_record(&buf[2..]).unwrap();
    assert_eq!((source, format!("{kind:?}")), (5, format!("{close:?}")));
    let payload = |source: FieldId, kind: &WriteKind| {
        let mut p = Vec::new();
        encode_payload(&mut p, source, kind);
        p
    };
    assert_eq!(payload(5, &close), buf[2..]);
    assert_ne!(payload(6, &close), buf[2..]);
    assert_ne!(payload(5, &label(1, 2)), payload(5, &label(2, 1)));
    buf.push(0);
    assert!(decode_record(&buf[2..]).is_none());
}
