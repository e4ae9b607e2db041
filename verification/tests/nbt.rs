use std::borrow::Cow;
use std::io::Read;

use axiom_pumpkin::buf::{Error, Reader};
use axiom_pumpkin::nbt::{
    byte, compound_list, compress_raw, decompress, doubles, floats, merge, put, read_compound,
    read_compound_list, read_fields, sanitize_entity, string, take_exact, take_network_tag,
    to_named_root, to_unnamed_root, write_compound, Field, MAX_DECOMPRESSED,
};
use axiom_pumpkin::zstd::Decoder;

#[test]
fn strips_an_empty_root_name() {
    // Compound, name "", one byte of payload (TAG_End).
    let named = [10_u8, 0, 0, 0];
    assert_eq!(to_unnamed_root(&named), Some(vec![10, 0]));
}

#[test]
fn strips_a_non_empty_root_name() {
    let mut named = vec![10_u8, 0, 2, b'h', b'i'];
    named.push(0);
    assert_eq!(to_unnamed_root(&named), Some(vec![10, 0]));
}

#[test]
fn rejects_documents_that_are_not_a_compound() {
    assert_eq!(to_unnamed_root(&[1, 0, 0]), None);
    assert_eq!(to_unnamed_root(&[]), None);
    // Truncated before the name length, and before the name itself.
    assert_eq!(to_unnamed_root(&[10, 0]), None);
    assert_eq!(to_unnamed_root(&[10, 0, 4, b'x']), None);
}

#[test]
fn named_and_unnamed_roots_round_trip() {
    let unnamed = vec![10_u8, 1, 0, 1, b'a', 7, 0];
    let named = to_named_root(&unnamed).expect("wraps");
    assert_eq!(&named[..3], &[10, 0, 0]);
    assert_eq!(to_unnamed_root(&named), Some(unnamed));
}

/// The frames we hand back must be readable by a real zstd decoder, or every
/// block entity we send is garbage on arrival.
#[test]
fn raw_frames_decode() {
    for payload in [
        Vec::new(),
        b"short".to_vec(),
        // Long enough to span more than one raw block.
        (0..300_000_u32).map(|i| i as u8).collect(),
    ] {
        let frame = compress_raw(&payload);
        let mut decoded = Vec::new();
        ruzstd::decoding::StreamingDecoder::new(frame.as_slice())
            .expect("frame header is valid")
            .read_to_end(&mut decoded)
            .expect("frame body is valid");
        assert_eq!(decoded, payload, "payload of {} bytes", payload.len());
    }
}

/// A tag has to be measured exactly, or every field after it in the packet is
/// read from the wrong offset.
#[test]
fn measures_a_nested_tag_exactly() {
    // Compound { "a": Int 1, "l": List<String>["hi"], "b": ByteArray[2] }
    let tag: Vec<u8> = vec![
        10, // compound
        3, 0, 1, b'a', 0, 0, 0, 1, // int "a" = 1
        9, 0, 1, b'l', 8, 0, 0, 0, 1, 0, 2, b'h', b'i', // list "l" of one string
        7, 0, 1, b'b', 0, 0, 0, 2, 9, 9, // byte array "b" of two bytes
        0,  // end of compound
    ];
    let mut trailing = tag.clone();
    trailing.extend_from_slice(b"AFTER");

    let mut r = Reader::new(&trailing);
    assert_eq!(take_network_tag(&mut r), Ok(tag.as_slice()));
    assert_eq!(r.rest(), b"AFTER");
}

#[test]
fn an_absent_tag_is_a_single_byte() {
    let mut r = Reader::new(&[0, 42]);
    assert_eq!(take_network_tag(&mut r), Ok(&[0_u8][..]));
    assert_eq!(r.rest(), &[42]);
}

#[test]
fn a_truncated_tag_is_rejected() {
    // Claims an int payload but supplies two bytes of it.
    assert!(take_network_tag(&mut Reader::new(&[10, 3, 0, 1, b'a', 0, 0])).is_err());
    // Unknown tag type.
    assert!(take_network_tag(&mut Reader::new(&[99])).is_err());
}

fn field<'a>(tag: u8, name: &'a [u8], payload: &'a [u8]) -> Field<'a> {
    Field {
        tag,
        name,
        payload: Cow::Borrowed(payload),
    }
}

fn names(fields: &[Field<'_>]) -> Vec<String> {
    fields
        .iter()
        .map(|f| String::from_utf8_lossy(f.name).into_owned())
        .collect()
}

#[test]
fn compounds_round_trip_and_an_absent_tag_is_empty() {
    let tag = write_compound(&[field(1, b"a", &[7]), field(8, b"s", &[0, 2, b'h', b'i'])]);
    assert_eq!(write_compound(&read_compound(&tag).unwrap()), tag);
    assert_eq!(read_compound(&[0]), Ok(Vec::new()));
    assert!(read_compound(&[3, 0, 0, 0, 1]).is_err(), "an int is not a compound");
    assert_eq!(string(&read_compound(&tag).unwrap(), b"s"), Some("hi"));
}

/// Anything outside the allow-list is dropped, riders included.
#[test]
fn sanitizing_keeps_only_allowed_keys_at_every_level() {
    let rider = write_compound(&[field(1, b"Glowing", &[1]), field(6, b"Health", &[0; 8])]);
    let riders = compound_list(&[rider]);
    let tag = write_compound(&[
        field(8, b"id", &[0, 3, b'p', b'i', b'g']),
        field(5, b"Health", &[0; 4]),
        field(9, b"Passengers", &riders),
    ]);
    let mut fields = read_compound(&tag).unwrap();
    sanitize_entity(&mut fields).unwrap();
    assert_eq!(names(&fields), ["id", "Passengers"]);
    let riders = read_compound_list(&fields[1].payload).unwrap();
    assert_eq!(riders.len(), 1);
    assert_eq!(names(&riders[0]), ["Glowing"]);
}

#[test]
fn merging_recurses_into_compounds_and_an_empty_one_removes_the_key() {
    let pose = write_compound(&[field(1, b"Head", &[1]), field(1, b"Body", &[2])]);
    let brightness = write_compound(&[field(3, b"sky", &[0, 0, 0, 15])]);
    let current = write_compound(&[
        field(10, b"Pose", &pose[1..]),
        field(10, b"brightness", &brightness[1..]),
        field(1, b"Small", &[0]),
    ]);
    let head_only = write_compound(&[field(1, b"Head", &[9])]);
    let changes = write_compound(&[
        field(10, b"Pose", &head_only[1..]),
        field(10, b"brightness", &[0]),
        field(1, b"Small", &[1]),
        field(1, b"Glowing", &[1]),
    ]);

    let mut fields = read_compound(&current).unwrap();
    merge(&mut fields, read_compound(&changes).unwrap()).unwrap();
    assert_eq!(names(&fields), ["Pose", "Small", "Glowing"]);
    assert_eq!(fields[1].payload.as_ref(), &[1]);

    // The limb that was not edited keeps its pose.
    let pose = read_fields(&mut Reader::new(&fields[0].payload)).unwrap();
    assert_eq!(pose, [field(1, b"Head", &[9]), field(1, b"Body", &[2])]);
}

/// And the decompressor we use for inbound data must accept them too, since
/// that is the path a round trip through the client would take.
#[test]
fn raw_frames_survive_our_own_decompressor() {
    let payload = b"a block entity".to_vec();
    let frame = compress_raw(&payload);
    assert_eq!(decompress(&mut Some(Decoder::new()), &frame, payload.len()), Ok(payload));
}

#[test]
fn a_raw_frame_has_its_exact_bytes() {
    assert_eq!(
        compress_raw(b"hi"),
        [0x28, 0xB5, 0x2F, 0xFD, 0xA0, 2, 0, 0, 0, 0x11, 0, 0, b'h', b'i']
    );
    assert_eq!(compress_raw(&[]), [0x28, 0xB5, 0x2F, 0xFD, 0xA0, 0, 0, 0, 0, 1, 0, 0]);
    // Two full blocks of 128 KiB, of which only the second is marked as the last.
    let frame = compress_raw(&vec![7_u8; 256 * 1024]);
    assert_eq!(&frame[5..12], &[0, 0, 4, 0, 0x00, 0x00, 0x10]);
    assert_eq!(&frame[12 + 128 * 1024..15 + 128 * 1024], &[0x01, 0x00, 0x10]);
    assert_eq!(frame.len(), 9 + 2 * (3 + 128 * 1024));
}

#[test]
fn a_decoder_reads_one_frame_after_another() {
    let mut decoder = Some(Decoder::new());
    for payload in [&b"first"[..], b"", b"third, and longer"] {
        let frame = compress_raw(payload);
        assert_eq!(decompress(&mut decoder, &frame, payload.len()), Ok(payload.to_vec()));
    }
}

#[test]
fn a_block_entity_holds_exactly_what_it_declares() {
    let mut decoder = Some(Decoder::new());
    let frame = compress_raw(b"five!");
    assert_eq!(
        decompress(&mut decoder, &frame, 6),
        Err("block entity NBT size mismatch: 5 != 6".to_owned())
    );
    assert_eq!(
        decompress(&mut decoder, &frame, 4),
        Err("block entity NBT size mismatch: 5 != 4".to_owned())
    );
    assert_eq!(
        decompress(&mut decoder, &frame, MAX_DECOMPRESSED + 1),
        Err("block entity NBT too large: 1048577 > 1048576".to_owned())
    );
    assert_eq!(
        decompress(&mut None, &frame, 5),
        Err("block entity dictionary unavailable".to_owned())
    );
    assert!(decompress(&mut decoder, b"not a frame", 5).is_err());
    // A block that ends before its declared length.
    assert!(decompress(&mut decoder, &frame[..frame.len() - 1], 5).is_err());
    assert_eq!(decompress(&mut decoder, &frame, 5), Ok(b"five!".to_vec()));
}

#[test]
fn what_came_is_held_against_what_was_declared() {
    assert_eq!(take_exact(vec![1, 2], 2, 0), Ok(vec![1, 2]));
    assert_eq!(
        take_exact(vec![1, 2], 1, 0),
        Err("block entity NBT size mismatch: 1 != 2".to_owned())
    );
    assert_eq!(
        take_exact(vec![1, 2], 2, 1),
        Err("block entity NBT size mismatch: 3 != 2".to_owned())
    );
}

/// A dictionary with the id 7: the smallest tables, three offsets, then its content.
fn dictionary() -> Vec<u8> {
    let mut raw = vec![0x37_u8, 0xA4, 0x30, 0xEC, 7, 0, 0, 0];
    // One literal weight of 1; the other follows from it.
    raw.extend_from_slice(&[128, 0x10]);
    // Offsets, match lengths and literal lengths, each with a single symbol.
    for _ in 0..3 {
        raw.extend_from_slice(&[0xF0, 0x03]);
    }
    raw.extend_from_slice(&[1, 0, 0, 0, 2, 0, 0, 0, 3, 0, 0, 0]);
    raw.extend_from_slice(&[b'x'; 600]);
    raw
}

#[test]
fn a_frame_that_names_a_dictionary_needs_it() {
    // Single segment, one byte of dictionary id, one byte of content size, one raw block.
    let frame = [0x28, 0xB5, 0x2F, 0xFD, 0x21, 7, 2, 0x11, 0, 0, b'h', b'i'];
    let mut with = Some(Decoder::with_dictionary(&dictionary()).expect("usable"));
    assert_eq!(decompress(&mut with, &frame, 2), Ok(b"hi".to_vec()));
    assert_eq!(decompress(&mut with, &compress_raw(b"ok"), 2), Ok(b"ok".to_vec()));
    assert!(decompress(&mut Some(Decoder::new()), &frame, 2).is_err());
}

#[test]
fn an_unusable_dictionary_is_refused() {
    assert!(Decoder::with_dictionary(&[0_u8; 600]).is_err());
    // Tables and offsets are 28 bytes; the content may be empty.
    let whole = dictionary();
    for len in 0..28 {
        assert!(Decoder::with_dictionary(&whole[..len]).is_err(), "{len} bytes");
    }
    assert!(Decoder::with_dictionary(&whole[..28]).is_ok());
}

#[test]
fn nesting_is_bounded() {
    // A list of lists: every level is an element type and a length of one.
    let nested = |depth: usize| {
        let mut tag = vec![9_u8];
        for _ in 0..depth {
            tag.extend_from_slice(&[9, 0, 0, 0, 1]);
        }
        tag.extend_from_slice(&[0, 0, 0, 0, 0]);
        tag
    };
    let tag = nested(512);
    assert_eq!(take_network_tag(&mut Reader::new(&tag)), Ok(tag.as_slice()));
    let tag = nested(513);
    assert_eq!(
        take_network_tag(&mut Reader::new(&tag)),
        Err(Error::TooLarge { what: "nbt nesting", len: 513, max: 512 })
    );
}

#[test]
fn malformed_tags_say_why() {
    assert_eq!(
        take_network_tag(&mut Reader::new(&[13])),
        Err(Error::TooLarge { what: "nbt tag type", len: 13, max: 12 })
    );
    assert_eq!(
        take_network_tag(&mut Reader::new(&[7, 0xFF, 0xFF, 0xFF, 0xFF])),
        Err(Error::TooLarge { what: "nbt array length", len: 0, max: i32::MAX as usize })
    );
    assert_eq!(
        read_compound(&[3, 0, 0, 0, 1]),
        Err(Error::Unexpected("nbt root is not a compound"))
    );
    assert_eq!(read_compound(&[10, 0, 5]), Err(Error::Trailing(1)));
    assert_eq!(read_compound(&[]), Err(Error::Eof));
}

#[test]
fn list_payloads_have_their_exact_bytes() {
    assert_eq!(
        doubles(&[1.0_f64.to_bits()]),
        [6, 0, 0, 0, 1, 0x3F, 0xF0, 0, 0, 0, 0, 0, 0]
    );
    assert_eq!(
        floats(&[1.0_f32.to_bits(), (-2.0_f32).to_bits()]),
        [5, 0, 0, 0, 2, 0x3F, 0x80, 0, 0, 0xC0, 0, 0, 0]
    );
    assert_eq!(compound_list(&[vec![10, 0], vec![10, 0]]), [10, 0, 0, 0, 2, 0, 0]);
    assert_eq!(read_compound_list(&[10, 0, 0, 0, 2, 0, 0]), Ok(vec![vec![], vec![]]));
    // A list of anything else holds no entities.
    assert_eq!(read_compound_list(&[1, 0, 0, 0, 0]), Ok(Vec::new()));
    assert_eq!(read_compound_list(&[1, 0, 0, 0, 2, 7, 7]), Ok(Vec::new()));
    assert_eq!(read_compound_list(&[8, 0, 0, 0, 1, 0, 2, b'h', b'i']), Ok(Vec::new()));
    assert_eq!(read_compound_list(&[0, 0, 0, 0, 9]), Ok(Vec::new()));
    assert_eq!(read_compound_list(&[1, 0, 0, 0, 1, 7, 7]), Err(Error::Trailing(1)));
    assert_eq!(read_compound_list(&[3, 0, 0, 0, 1, 7]), Err(Error::Eof));
    assert_eq!(
        read_compound_list(&[13, 0, 0, 0, 1]),
        Err(Error::TooLarge { what: "nbt tag type", len: 13, max: 12 })
    );
}

#[test]
fn fields_are_replaced_by_name_or_added() {
    let mut fields = vec![field(1, b"a", &[1]), field(1, b"b", &[2])];
    put(&mut fields, Field::byte(b"a", 9));
    put(&mut fields, Field::list(b"c", floats(&[])));
    assert_eq!(names(&fields), ["a", "b", "c"]);
    assert_eq!(byte(&fields, b"a"), Some(9));
    assert_eq!(byte(&fields, b"c"), None);
    assert_eq!(byte(&fields, b"z"), None);
    assert_eq!(fields[2].tag, 9);
    assert_eq!(string(&[field(8, b"s", &[0, 1, 0xFF])], b"s"), None);
    assert_eq!(string(&[field(8, b"s", &[0])], b"s"), None);
}

#[test]
fn passengers_that_are_no_list_are_dropped() {
    let mut fields = vec![field(1, b"Passengers", &[1]), field(1, b"Small", &[1])];
    sanitize_entity(&mut fields).unwrap();
    assert_eq!(names(&fields), ["Small"]);
    let mut fields = vec![field(9, b"Passengers", &[10, 0, 0, 0, 1])];
    assert_eq!(sanitize_entity(&mut fields), Err(Error::Eof));
}

#[test]
fn merging_a_compound_over_a_plain_value_replaces_it() {
    let mut fields = vec![field(1, b"x", &[1]), field(1, b"y", &[2])];
    let inner = write_compound(&[field(1, b"k", &[3])]);
    merge(&mut fields, vec![field(10, b"x", &inner[1..])]).unwrap();
    assert_eq!(fields, [field(10, b"x", &inner[1..]), field(1, b"y", &[2])]);
    merge(&mut fields, vec![field(10, b"missing", &[0])]).unwrap();
    assert_eq!(names(&fields), ["x", "y"]);
}

/// Sanitizing what survived sanitizing changes nothing.
#[test]
fn sanitizing_twice_is_sanitizing_once() {
    let rider = write_compound(&[field(1, b"Glowing", &[1]), field(6, b"Health", &[0; 8])]);
    let riders = compound_list(&[rider]);
    let mut fields = vec![field(9, b"Passengers", &riders), field(5, b"Health", &[0; 4])];
    sanitize_entity(&mut fields).unwrap();
    let once = write_compound(&fields);
    sanitize_entity(&mut fields).unwrap();
    assert_eq!(write_compound(&fields), once);
}
