use axiom_pumpkin::buf::{pack_block_pos, unpack_block_pos, Error, Reader, Writer};

/// The sentinel's exact bit pattern; if the packing disagrees, every section key in a block
/// buffer lands in the wrong place.
#[test]
fn block_pos_packing_matches_vanilla() {
    const MIN_POSITION_LONG: i64 =
        0b1000000000000000000000000010000000000000000000000000100000000000_u64 as i64;
    assert_eq!(pack_block_pos(-33_554_432, -2048, -33_554_432), MIN_POSITION_LONG);
    assert_eq!(unpack_block_pos(MIN_POSITION_LONG), (-33_554_432, -2048, -33_554_432));
}

#[test]
fn block_pos_roundtrips_signed_components() {
    for pos in [(0, 0, 0), (1, -1, 1), (-30_000_000, 319, 30_000_000), (17, -64, -17)] {
        let (x, y, z) = pos;
        assert_eq!(unpack_block_pos(pack_block_pos(x, y, z)), pos);
    }
}

#[test]
fn varint_roundtrips() {
    for v in [0, 1, -1, 127, 128, i32::MAX, i32::MIN] {
        let mut w = Writer::new();
        w.var_i32(v);
        let bytes = w.into_vec();
        assert_eq!(Reader::new(&bytes).var_i32(), Ok(v), "value {v}");
    }
}

#[test]
fn reads_are_bounds_checked() {
    assert_eq!(Reader::new(&[]).i32(), Err(Error::Eof));
    assert_eq!(Reader::new(&[0xFF; 3]).i32(), Err(Error::Eof));
    assert_eq!(Reader::new(&[0xFF; 6]).var_i32(), Err(Error::VarTooLong));
    // A negative length must not wrap into a huge allocation.
    let mut r = Reader::new(&[0xFF, 0xFF, 0xFF, 0xFF, 0x0F]);
    assert!(matches!(r.var_len("test", 16), Err(Error::TooLarge { .. })));
}

#[test]
fn packing_drops_the_bits_that_do_not_fit() {
    assert_eq!(pack_block_pos(1, 2, 3), (1_i64 << 38) | (3_i64 << 12) | 2);
    assert_eq!(unpack_block_pos(pack_block_pos(1 << 26, 1 << 12, 1 << 26)), (0, 0, 0));
    assert_eq!(unpack_block_pos(pack_block_pos(1 << 25, 2048, 5)), (-(1 << 25), -2048, 5));
}

#[test]
fn everything_written_is_read_back() {
    let mut w = Writer::with_capacity(64);
    w.u8(200)
        .bool(true)
        .i16(-2)
        .i32(-3)
        .i64(i64::MIN)
        .f32_bits(1.5_f32.to_bits())
        .f64_bits((-0.25_f64).to_bits())
        .var_i64(-1)
        .string("h\u{e9}llo \u{1f9ca}")
        .byte_array(&[9, 8, 7])
        .uuid(1, u64::MAX)
        .block_pos(-5, 70, 12);
    let bytes = w.into_vec();
    let mut r = Reader::new(&bytes);
    assert_eq!(r.peek_u8(), Ok(200));
    assert_eq!(r.u8(), Ok(200));
    assert_eq!(r.bool(), Ok(true));
    assert_eq!(r.i16(), Ok(-2));
    assert_eq!(r.i32(), Ok(-3));
    assert_eq!(r.i64(), Ok(i64::MIN));
    assert_eq!(r.f32_bits().map(f32::from_bits), Ok(1.5));
    assert_eq!(r.f64_bits().map(f64::from_bits), Ok(-0.25));
    assert_eq!(r.var_i64(), Ok(-1));
    assert_eq!(r.string(), Ok("h\u{e9}llo \u{1f9ca}"));
    assert_eq!(r.byte_array(3), Ok(&[9_u8, 8, 7][..]));
    assert_eq!(r.uuid(), Ok((1, u64::MAX)));
    assert_eq!(r.block_pos(), Ok((-5, 70, 12)));
    assert!(r.is_empty());
    assert_eq!(r.expect_fully_read(), Ok(()));
}

#[test]
fn numbers_are_big_endian() {
    let mut w = Writer::new();
    w.i16(0x0102).i32(0x0304_0506).i64(0x0708_090A_0B0C_0D0E);
    assert_eq!(w.len(), 14);
    assert!(!w.is_empty());
    assert_eq!(w.into_vec(), [1, 2, 3, 4, 5, 6, 7, 8, 9, 10, 11, 12, 13, 14]);
    assert_eq!(Reader::new(&[0xFF]).i8(), Ok(-1));
    assert_eq!(Reader::new(&[0xAB, 0xCD]).u16(), Ok(0xABCD));
}

#[test]
fn variable_length_numbers_have_their_exact_bytes() {
    let mut w = Writer::new();
    w.var_i32(300).var_i32(-1).var_i64(-1);
    assert_eq!(
        w.into_vec(),
        [
            0xAC, 0x02, 0xFF, 0xFF, 0xFF, 0xFF, 0x0F, 0xFF, 0xFF, 0xFF, 0xFF, 0xFF, 0xFF, 0xFF,
            0xFF, 0xFF, 0x01
        ]
    );
    assert_eq!(Reader::new(&[0xFF; 11]).var_i64(), Err(Error::VarTooLong));
}

#[test]
fn errors_say_what_went_wrong() {
    assert_eq!(Reader::new(&[1, 0xFF]).string(), Err(Error::BadUtf8));
    let mut r = Reader::new(&[5, 0]);
    assert_eq!(
        r.var_len("block map", 4),
        Err(Error::TooLarge { what: "block map", len: 5, max: 4 })
    );
    assert_eq!(r.expect_fully_read(), Err(Error::Trailing(1)));
    assert_eq!(Reader::new(&[3, 1, 2, 3]).byte_array(2).is_err(), true);
    assert_eq!(Reader::new(&[3, 1, 2]).byte_array(3), Err(Error::Eof));
}

#[test]
fn a_reader_keeps_its_place_on_what_was_read() {
    let data = [1_u8, 2, 3, 4];
    let mut r = Reader::new(&data);
    r.u8().unwrap();
    let start = r.position();
    r.take(2).unwrap();
    assert_eq!(r.since(start), Ok(&data[1..3]));
    assert_eq!(r.remaining(), 1);
    assert_eq!(r.take(2), Err(Error::Eof));
    assert_eq!(r.rest(), &data[3..]);
    assert!(r.is_empty());
}

#[test]
fn errors_have_their_messages() {
    assert_eq!(Error::Eof.to_string(), "unexpected end of buffer");
    assert_eq!(Error::VarTooLong.to_string(), "varint too long");
    assert_eq!(Error::BadUtf8.to_string(), "invalid utf-8");
    let large = Error::TooLarge { what: "uuid list", len: 2000, max: 1024 };
    assert_eq!(large.to_string(), "uuid list too large: 2000 > 1024");
    assert_eq!(Error::Trailing(10).to_string(), "10 trailing bytes left unread");
    assert_eq!(Error::Unexpected("nbt root").to_string(), "nbt root");
}
