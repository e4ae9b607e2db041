use axiom_pumpkin::buf::{Error, Reader, Writer};
use axiom_pumpkin::palette::{
    index_of, packed_len, read_section, write_section_indirect, SECTION_VOLUME,
};

/// The width a 1.21.9-era registry needs for a global palette.
const DIRECT_BITS: u8 = 15;

fn roundtrip(entries: &[u16]) {
    let mut w = Writer::new();
    assert!(
        write_section_indirect(&mut w, entries),
        "palette should fit"
    );
    let bytes = w.into_vec();
    let decoded = read_section(&mut Reader::new(&bytes), DIRECT_BITS).expect("decodes");
    assert_eq!(decoded, entries);
}

#[test]
fn indirect_palette_roundtrips() {
    // 200 distinct states, so the palette needs the full 8 bits.
    let entries: Vec<u16> = (0..SECTION_VOLUME)
        .map(|i| (i % 200 + 15_000) as u16)
        .collect();
    roundtrip(&entries);
}

#[test]
fn a_uniform_section_roundtrips() {
    roundtrip(&vec![1_u16; SECTION_VOLUME]);
}

#[test]
fn a_section_too_varied_for_a_palette_is_refused() {
    let entries: Vec<u16> = (0..SECTION_VOLUME).map(|i| (i % 1000) as u16).collect();
    let mut w = Writer::new();
    assert!(!write_section_indirect(&mut w, &entries));
}

#[test]
fn single_value_palette_fills_the_section() {
    let mut w = Writer::new();
    w.u8(0).var_i32(1234);
    let decoded = read_section(&mut Reader::new(&w.into_vec()), DIRECT_BITS).expect("decodes");
    assert_eq!(decoded, vec![1234_u16; SECTION_VOLUME]);
}

/// A 2-bit palette is stored at 4 bits per entry; reading it at its declared
/// width would desynchronise every entry after the first word.
#[test]
fn narrow_indirect_palette_uses_four_bits() {
    let palette = [7_u16, 9, 11];
    let mut w = Writer::new();
    w.u8(2).var_i32(palette.len() as i32);
    for id in palette {
        w.var_i32(i32::from(id));
    }
    // 16 entries per word: indices 0,1,2,0,1,2,... over 256 words.
    for word in 0..packed_len(4) {
        let mut packed = 0_u64;
        for slot in 0..16 {
            let index = ((word * 16 + slot) % palette.len()) as u64;
            packed |= index << (slot * 4);
        }
        w.i64(packed as i64);
    }

    let decoded = read_section(&mut Reader::new(&w.into_vec()), DIRECT_BITS).expect("decodes");
    for (i, &value) in decoded.iter().enumerate() {
        assert_eq!(value, palette[i % palette.len()], "entry {i}");
    }
}

#[test]
fn out_of_range_palette_index_is_rejected() {
    let mut w = Writer::new();
    w.u8(4).var_i32(1).var_i32(5);
    for _ in 0..packed_len(4) {
        // Every entry points at index 1, but the palette only has index 0.
        w.i64(0x1111_1111_1111_1111_u64 as i64);
    }
    assert!(read_section(&mut Reader::new(&w.into_vec()), DIRECT_BITS).is_err());
}

#[test]
fn truncated_section_is_rejected() {
    let mut w = Writer::new();
    w.u8(15);
    w.i64(0);
    assert_eq!(
        read_section(&mut Reader::new(&w.into_vec()), DIRECT_BITS),
        Err(Error::Eof)
    );
}

#[test]
fn index_matches_vanilla_order() {
    assert_eq!(index_of(0, 0, 0), 0);
    assert_eq!(index_of(1, 0, 0), 1);
    assert_eq!(index_of(0, 0, 1), 16);
    assert_eq!(index_of(0, 1, 0), 256);
    assert_eq!(index_of(15, 15, 15), SECTION_VOLUME - 1);
}

/// The declared width describes the bytes that were sent.
#[test]
fn the_declared_width_counts_over_the_registry_width() {
    let mut w = Writer::new();
    w.u8(9);
    for _ in 0..packed_len(9) {
        w.i64(3);
    }
    let bytes = w.into_vec();
    assert_eq!(bytes.len(), 1 + 586 * 8);
    let decoded = read_section(&mut Reader::new(&bytes), DIRECT_BITS).expect("decodes");
    for (i, &value) in decoded.iter().enumerate() {
        assert_eq!(value, if i % 7 == 0 { 3 } else { 0 }, "entry {i}");
    }
}

#[test]
fn no_id_is_wider_than_sixteen_bits() {
    let mut w = Writer::new();
    w.u8(17);
    for _ in 0..packed_len(16) {
        w.i64(0x0004_0003_0002_0001);
    }
    let bytes = w.into_vec();
    assert_eq!(bytes.len(), 1 + 1024 * 8);
    for direct_bits in [0, 10, DIRECT_BITS, 16, 20] {
        let mut r = Reader::new(&bytes);
        let decoded = read_section(&mut r, direct_bits).expect("decodes");
        assert_eq!(&decoded[..5], &[1, 2, 3, 4, 1]);
        assert_eq!(r.remaining(), 0);
    }
    // 683 words would do for ten bits an entry.
    assert_eq!(read_section(&mut Reader::new(&bytes[..1 + 683 * 8]), 10), Err(Error::Eof));
}

#[test]
fn words_hold_whole_entries() {
    assert_eq!(packed_len(4), 256);
    assert_eq!(packed_len(5), 342);
    assert_eq!(packed_len(15), 1024);
}

#[test]
fn a_palette_of_256_states_still_fits_and_one_of_257_does_not() {
    let fits: Vec<u16> = (0..SECTION_VOLUME).map(|i| (i % 256) as u16).collect();
    roundtrip(&fits);
    let over: Vec<u16> = (0..SECTION_VOLUME).map(|i| (i % 257) as u16).collect();
    assert!(!write_section_indirect(&mut Writer::new(), &over));
}

#[test]
fn a_direct_section_is_read_at_the_registry_width() {
    let mut w = Writer::new();
    w.u8(15);
    for word in 0..packed_len(15) {
        let mut packed = 0_u64;
        for slot in 0..4 {
            packed |= ((word * 4 + slot) as u64 * 3) << (slot * 15);
        }
        w.i64(packed as i64);
    }
    let decoded = read_section(&mut Reader::new(&w.into_vec()), DIRECT_BITS).expect("decodes");
    for (i, &value) in decoded.iter().enumerate() {
        assert_eq!(usize::from(value), i * 3, "entry {i}");
    }
}
