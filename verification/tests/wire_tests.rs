//! Header and body codec behaviour.

use xenstored::wire::{Body, Header, XenStoreCodec};

#[test]
fn wire_header_parse_values() {
    let hdr = vec![1, 0, 0, 0, 2, 0, 0, 0, 3, 0, 0, 0, 4, 0, 0, 0];
    let header = Header::parse(&hdr).unwrap();

    assert_eq!(header.msg_type, 1);
    assert_eq!(header.req_id, 2);
    assert_eq!(header.tx_id, 3);
    assert_eq!(header.len, 4);
}

#[test]
fn wire_header_idempotent() {
    let samples = [
        Header { msg_type: 0, req_id: 0, tx_id: 0, len: 0 },
        Header { msg_type: 11, req_id: 7, tx_id: 3, len: 4096 },
        Header { msg_type: 0xffff, req_id: u32::MAX, tx_id: 0x01020304, len: u32::MAX },
        Header { msg_type: 21, req_id: 1, tx_id: u32::MAX - 1, len: 1 },
    ];
    for hdr in samples.iter() {
        let bytes = hdr.to_vec();
        assert_eq!(bytes.len(), 16);
        let decoded_hdr = Header::parse(&bytes).unwrap();
        assert_eq!(decoded_hdr, *hdr);
    }
}

#[test]
fn wire_header_parse() {
    // fewer than 16 bytes fail to parse; 16 or more succeed
    for n in 0..20usize {
        let bytes = vec![0xabu8; n];
        assert_eq!(Header::parse(&bytes).is_some(), n >= 16);
    }
}

#[test]
fn wire_body_parse() {
    let header = |n: usize| Header { msg_type: 0, req_id: 0, tx_id: 0, len: n as u32 };

    // a trailing separator is tolerated but not required
    let b = Body::parse(&header(4), b"a\0b\0").unwrap();
    assert_eq!(b.0, vec![b"a".to_vec(), b"b".to_vec()]);
    let b = Body::parse(&header(3), b"a\0b").unwrap();
    assert_eq!(b.0, vec![b"a".to_vec(), b"b".to_vec()]);

    // empty segments are dropped; an empty body has no fields
    let b = Body::parse(&header(4), b"\0\0ab").unwrap();
    assert_eq!(b.0, vec![b"ab".to_vec()]);
    let b = Body::parse(&header(0), b"").unwrap();
    assert_eq!(b.0, Vec::<Vec<u8>>::new());

    // a length mismatch is refused
    assert!(Body::parse(&header(5), b"a\0b\0").is_none());
}

#[test]
fn body_len() {
    // each non-empty field costs its bytes plus one separator
    let body = Body(vec![b"ab".to_vec(), Vec::new(), b"c".to_vec()]);
    assert_eq!(body.len(), 5);
    assert_eq!(body.to_vec(), b"ab\0c\0".to_vec());
    let empty = Body(Vec::new());
    assert_eq!(empty.len(), 0);
}

#[test]
fn codec_round_trip() {
    let body = Body(vec![b"/a".to_vec(), b"v".to_vec()]);
    let header = Header { msg_type: 11, req_id: 9, tx_id: 0, len: body.len() as u32 };
    let frame = XenStoreCodec::encode(&header, &body);
    let (h2, b2) = XenStoreCodec::decode(&frame).unwrap().unwrap();
    assert_eq!(h2, header);
    assert_eq!(b2.0, body.0);
}

#[test]
fn codec_needs_whole_frame() {
    let body = Body(vec![b"field".to_vec()]);
    let header = Header { msg_type: 2, req_id: 1, tx_id: 0, len: body.len() as u32 };
    let frame = XenStoreCodec::encode(&header, &body);
    for cut in 0..frame.len() {
        assert!(XenStoreCodec::decode(&frame[..cut]).unwrap().is_none());
    }
}

#[test]
fn codec_rejects_oversized_body() {
    // announcing 4096 body bytes is fine, one more is a protocol error
    let h_ok = Header { msg_type: 0, req_id: 0, tx_id: 0, len: 4096 };
    let mut frame = h_ok.to_vec();
    frame.extend(vec![b'x'; 4095]);
    frame.push(0);
    let got = XenStoreCodec::decode(&frame).unwrap().unwrap();
    assert_eq!(got.0.len, 4096);

    let h_big = Header { msg_type: 0, req_id: 0, tx_id: 0, len: 4097 };
    let mut frame = h_big.to_vec();
    frame.extend(vec![b'x'; 4097]);
    assert!(XenStoreCodec::decode(&frame).is_err());
}

#[test]
fn header_parse_values() {
    let hdr = vec![1, 0, 0, 0, 2, 0, 0, 0, 3, 0, 0, 0, 4, 0, 0, 0];
    let header = Header::parse(&hdr).unwrap();

    assert_eq!(header.msg_type, 1);
    assert_eq!(header.req_id, 2);
    assert_eq!(header.tx_id, 3);
    assert_eq!(header.len, 4);
}
