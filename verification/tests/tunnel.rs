use axiom_pumpkin::buf;
use axiom_pumpkin::buf::Writer;
use axiom_pumpkin::nbt::compress_raw;
use axiom_pumpkin::tunnel::{
    at_end, decode, split_frames, zstd_decompress, Error, Tunnel, FRAME_FLAG_FIRST,
    FRAME_FLAG_LAST, MAX_FRAME_LEN, MAX_PACKET_LEN, MAX_PENDING_LEN, PACKET_FLAG_ZSTD,
};

/// Builds the reassembled form of a tunnel packet: id, length, flags, body.
fn packet(id: &str, body: &[u8]) -> Vec<u8> {
    let mut w = Writer::new();
    w.string(id).i32(body.len() as i32).u8(0).bytes(body);
    w.into_vec()
}

#[test]
fn single_frame_roundtrip() {
    let mut t = Tunnel::new();
    let mut frame = vec![FRAME_FLAG_FIRST | FRAME_FLAG_LAST];
    frame.extend_from_slice(&packet("axiom:hello", b"body"));

    let p = t.push(&frame).expect("accepted").expect("complete");
    assert_eq!(p.id, "axiom:hello");
    assert_eq!(p.body, b"body");
}

#[test]
fn split_frames_reassemble() {
    let body = vec![7_u8; MAX_FRAME_LEN * 2];
    let frames = split_frames(&packet("axiom:set_buffer", &body));
    assert!(frames.len() > 2, "payload should span several frames");

    let mut t = Tunnel::new();
    let mut done = None;
    for f in &frames {
        assert!(f.len() <= MAX_FRAME_LEN);
        if let Some(p) = t.push(f).expect("accepted") {
            done = Some(p);
        }
    }
    let p = done.expect("last frame completes the packet");
    assert_eq!(p.id, "axiom:set_buffer");
    assert_eq!(p.body, body);
}

#[test]
fn joining_mid_packet_skips_until_next_first() {
    let mut t = Tunnel::new();
    // A continuation frame with no FIRST seen yet is dropped, not misparsed.
    assert!(t.push(&[0, 1, 2, 3]).expect("accepted").is_none());
    assert!(
        t.push(&[FRAME_FLAG_LAST, 4, 5])
            .expect("accepted")
            .is_none()
    );

    let mut frame = vec![FRAME_FLAG_FIRST | FRAME_FLAG_LAST];
    frame.extend_from_slice(&packet("axiom:hello", b"ok"));
    let p = t.push(&frame).expect("accepted").expect("complete");
    assert_eq!(p.body, b"ok");
}

#[test]
fn oversized_frame_is_rejected() {
    let mut t = Tunnel::new();
    let frame = vec![FRAME_FLAG_FIRST | FRAME_FLAG_LAST; MAX_FRAME_LEN + 1];
    assert!(matches!(t.push(&frame), Err(Error::FrameTooLarge(_))));
}

#[test]
fn unterminated_stream_is_bounded() {
    let mut t = Tunnel::new();
    let mut flags = FRAME_FLAG_FIRST;
    // Never send LAST; reassembly must give up instead of growing forever.
    for _ in 0..(MAX_PENDING_LEN / (MAX_FRAME_LEN - 1) + 2) {
        let frame = vec![flags; MAX_FRAME_LEN];
        flags = 0;
        if let Err(e) = t.push(&frame) {
            assert!(matches!(e, Error::PendingTooLarge));
            return;
        }
    }
    panic!("reassembly buffer grew past its cap");
}

fn zipped(id: &str, declared: i32, frame: &[u8]) -> Vec<u8> {
    let mut w = Writer::new();
    w.string(id).i32(declared).u8(PACKET_FLAG_ZSTD).bytes(frame);
    w.into_vec()
}

#[test]
fn a_compressed_body_is_unpacked() {
    let p = decode(&zipped("axiom:set_buffer", 7, &compress_raw(b"content"))).expect("decodes");
    assert_eq!(p.id, "axiom:set_buffer");
    assert_eq!(p.body, b"content");
}

#[test]
fn a_body_holds_exactly_what_it_declares() {
    let frame = compress_raw(b"content");
    assert!(matches!(
        zstd_decompress(&frame, 8),
        Err(Error::SizeMismatch { declared: 8, actual: 7 })
    ));
    assert!(matches!(
        zstd_decompress(&frame, 6),
        Err(Error::SizeMismatch { declared: 6, actual: 7 })
    ));
    assert!(matches!(zstd_decompress(b"not a frame", 6), Err(Error::Zstd(_))));
    assert!(matches!(zstd_decompress(&frame[..12], 7), Err(Error::Zstd(_))));
    assert!(matches!(zstd_decompress(&frame, 7), Ok(body) if body == b"content"));
}

#[test]
fn what_follows_a_full_body_decides() {
    assert!(matches!(at_end(vec![1, 2], Ok(0)), Ok(body) if body == [1, 2]));
    assert!(matches!(
        at_end(vec![1, 2], Ok(1)),
        Err(Error::SizeMismatch { declared: 2, actual: 3 })
    ));
    assert!(matches!(at_end(vec![], Err("bad block".to_owned())), Err(Error::Zstd(_))));
}

#[test]
fn malformed_packets_are_refused() {
    assert!(matches!(decode(&[]), Err(Error::Decode(buf::Error::Eof))));
    assert!(matches!(decode(&zipped("a", -1, &[])), Err(Error::PacketTooLarge(0))));
    let over = MAX_PACKET_LEN as i32 + 1;
    assert!(matches!(
        decode(&zipped("a", over, &[])),
        Err(Error::PacketTooLarge(n)) if n == MAX_PACKET_LEN + 1
    ));
    assert!(matches!(Tunnel::new().push(&[]), Err(Error::EmptyFrame)));
}

#[test]
fn errors_have_messages() {
    assert_eq!(
        Error::from(buf::Error::Eof).to_string(),
        Error::Decode(buf::Error::Eof).to_string()
    );
    for (e, text) in [
        (Error::FrameTooLarge(31001), "sent split buffer that was too large (31001)"),
        (Error::EmptyFrame, "sent empty tunnel frame"),
        (Error::PendingTooLarge, "reassembly buffer exceeded the packet limit"),
        (Error::PacketTooLarge(9), "sent packet was too large (9)"),
        (
            Error::SizeMismatch { declared: 4, actual: 5 },
            "uncompressed size didn't match real size (4 vs 5)",
        ),
        (Error::Zstd("bad block".to_owned()), "zstd failed to decompress: bad block"),
        (Error::Decode(buf::Error::BadUtf8), "malformed tunnel packet: invalid utf-8"),
    ] {
        assert_eq!(e.to_string(), text);
    }
}

#[test]
fn a_reset_tunnel_waits_for_the_next_packet() {
    let mut t = Tunnel::default();
    assert!(t.push(&[FRAME_FLAG_FIRST, 1, 2]).expect("accepted").is_none());
    t.reset();
    assert!(t.push(&[FRAME_FLAG_LAST, 3]).expect("accepted").is_none());
    let mut frame = vec![FRAME_FLAG_FIRST | FRAME_FLAG_LAST];
    frame.extend_from_slice(&packet("axiom:hello", b""));
    assert!(t.push(&frame).expect("accepted").is_some());
}

/// A packet is open from its first frame on, though that carries nothing.
#[test]
fn an_empty_first_frame_opens_a_packet() {
    let mut t = Tunnel::new();
    assert!(t.push(&[FRAME_FLAG_FIRST]).expect("accepted").is_none());
    assert!(t.push(&[0]).expect("accepted").is_none());
    let p = t.push(&[FRAME_FLAG_LAST, 1, b'a', 0, 0, 0, 0, 0]).expect("accepted").expect("complete");
    assert_eq!(p.id, "a");
    assert!(p.body.is_empty());
    // It is closed with its last.
    assert!(t.push(&[FRAME_FLAG_LAST, 1, b'a', 0, 0, 0, 0, 0]).expect("accepted").is_none());
}

/// What is told of the last frame is what the payload decodes to, an error too.
#[test]
fn the_last_frame_tells_what_the_payload_decodes_to() {
    let frame = compress_raw(&vec![3_u8; MAX_FRAME_LEN]);
    let payload = zipped("axiom:set_buffer", MAX_FRAME_LEN as i32 - 1, &frame);
    let frames = split_frames(&payload);
    assert_eq!(frames.len(), 2);
    let mut t = Tunnel::new();
    assert!(t.push(&[0, 9]).expect("accepted").is_none());
    assert!(t.push(&frames[0]).expect("accepted").is_none());
    let told = t.push(&frames[1]).err().expect("expands past its size");
    assert_eq!(told.to_string(), decode(&payload).err().expect("refused").to_string());
    assert_eq!(told.to_string(), "uncompressed size didn't match real size (30999 vs 31000)");
}

#[test]
fn an_empty_payload_is_one_frame() {
    assert_eq!(split_frames(&[]), [[FRAME_FLAG_FIRST | FRAME_FLAG_LAST]]);
    let frames = split_frames(&vec![5_u8; MAX_FRAME_LEN]);
    assert_eq!(frames.len(), 2);
    assert_eq!(frames[0].len(), MAX_FRAME_LEN);
    assert_eq!(frames[0][0], FRAME_FLAG_FIRST);
    assert_eq!(frames[1], [FRAME_FLAG_LAST, 5]);
}
