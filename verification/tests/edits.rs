use axiom_pumpkin::buf::{pack_block_pos, Writer};
use axiom_pumpkin::edits::{
    apply_block_entity, first_section, most_common, set_block, set_buffer, tally, BiomeWrite,
    Charge, PendingBlockEntity, Registry, MIN_POSITION_LONG,
};
use axiom_pumpkin::handlers::{placement_flags, BlockPos};
use axiom_pumpkin::nbt::compress_raw;
use axiom_pumpkin::palette::{index_of, write_section_indirect, SECTION_VOLUME};
use axiom_pumpkin::zstd::Decoder;

const HERE: &str = "minecraft:overworld";

/// The id that leaves a block alone.
const EMPTY: u16 = 9;

fn registry(allow_nbt: bool) -> Registry {
    Registry { state_count: 100, empty: EMPTY, allow_nbt }
}

/// The rest of a `set_block` packet, after its positions.
fn hit(w: &mut Writer, sequence_id: i32) {
    w.var_i32(0).bool(false).block_pos(1, 2, 3).var_i32(1);
    w.f32_bits(0).f32_bits(0).f32_bits(0).bool(false).var_i32(0).var_i32(sequence_id);
}

#[test]
fn blocks_are_placed_and_acknowledged() {
    let mut w = Writer::new();
    w.var_i32(4);
    w.block_pos(0, 64, 0).var_i32(5);
    w.block_pos(5, 64, 0).var_i32(6);
    // No state of this registry, and no state at all.
    w.block_pos(6, 64, 0).var_i32(100);
    w.block_pos(7, 64, 0).var_i32(-1);
    w.bool(true).var_i32(1).block_pos(0, 65, 0);
    hit(&mut w, 42);
    let body = w.into_vec();

    let done = set_block(&body, true, 100).unwrap();
    assert_eq!(done.acknowledge, Some(42));
    assert_eq!(done.blocks.len(), 2);
    assert_eq!(done.blocks[0].pos, BlockPos { x: 0, y: 64, z: 0 });
    assert_eq!(done.blocks[0].state, 5);
    // It touches a protected position, the other does not.
    assert_eq!(done.blocks[0].flags, placement_flags(false));
    assert_eq!(done.blocks[1].flags, placement_flags(true));

    let refused = set_block(&body, false, 100).unwrap();
    assert_eq!(refused.acknowledge, Some(42));
    assert!(refused.blocks.is_empty());
}

#[test]
fn a_negative_sequence_is_not_acknowledged() {
    let mut w = Writer::new();
    w.var_i32(0).bool(false);
    hit(&mut w, -1);
    assert_eq!(set_block(&w.into_vec(), true, 100).unwrap().acknowledge, None);
    let mut w = Writer::new();
    w.var_i32(2000);
    assert_eq!(
        set_block(&w.into_vec(), true, 100).err().as_deref(),
        Some("block map too large: 2000 > 1024")
    );
}

/// A buffer up to its sections.
fn head(kind: u8) -> Writer {
    let mut w = Writer::new();
    w.string("overworld").uuid(1, 2).u8(kind);
    w
}

/// A section that leaves everything alone but for the given blocks.
fn section(blocks: &[(usize, usize, usize, u16)]) -> Vec<u16> {
    let mut entries = vec![EMPTY; SECTION_VOLUME];
    for &(x, y, z, state) in blocks {
        entries[index_of(x, y, z)] = state;
    }
    entries
}

#[test]
fn the_sentinel_is_the_lowest_position() {
    assert_eq!(pack_block_pos(-33_554_432, -2048, -33_554_432), MIN_POSITION_LONG);
}

#[test]
fn a_block_buffer_writes_what_is_not_left_alone() {
    let mut w = head(0);
    w.i64(pack_block_pos(-1, 2, 3));
    let entries = section(&[(1, 2, 3, 7), (15, 0, 0, 8), (0, 0, 0, 200)]);
    assert!(write_section_indirect(&mut w, &entries));
    w.var_i32(0).i64(MIN_POSITION_LONG).var_i32(17);
    let body = w.into_vec();

    let (edit, outcome) = set_buffer(&body, true, HERE, &registry(false), &mut None);
    assert_eq!(outcome, Ok(Some(Charge { sections: 1, client_available: 17 })));
    // In the order of the section: y, then z, then x.
    let written: Vec<(BlockPos, u16)> = edit.blocks.iter().map(|b| (b.pos, b.state)).collect();
    assert_eq!(
        written,
        [
            (BlockPos { x: -1, y: 32, z: 48 }, 8),
            (BlockPos { x: -15, y: 34, z: 51 }, 7),
        ]
    );
    assert!(edit.blocks.iter().all(|b| b.nbt.is_none()));

    for (allowed, dimension) in [(false, HERE), (true, "minecraft:the_end")] {
        let (edit, outcome) = set_buffer(&body, allowed, dimension, &registry(false), &mut None);
        assert_eq!(outcome, Ok(None));
        assert!(edit.blocks.is_empty());
    }

    assert!(first_section(&body, "minecraft:the_end", 100).is_none());
    let (bits, states) = first_section(&body, HERE, 100).expect("a section");
    assert_eq!(bits, 4);
    assert_eq!(states, entries);
}

#[test]
fn block_entities_land_on_their_blocks() {
    let named = [10_u8, 0, 0, 1, 0, 1, b'a', 7, 0];
    let mut w = head(0);
    w.i64(pack_block_pos(0, 0, 0));
    assert!(write_section_indirect(&mut w, &section(&[(1, 2, 3, 7), (4, 4, 4, 7)])));
    w.var_i32(2);
    for (offset, dictionary) in [(1 | 2 << 4 | 3 << 8, 0), (4 | 4 << 4 | 4 << 8, 1)] {
        w.i16(offset).var_i32(named.len() as i32).u8(dictionary);
        w.byte_array(&compress_raw(&named));
    }
    w.i64(MIN_POSITION_LONG);
    let body = w.into_vec();

    let mut decoder = Some(Decoder::new());
    let (edit, outcome) = set_buffer(&body, true, HERE, &registry(true), &mut decoder);
    // The number behind the sentinel is missing, which reads as zero.
    assert_eq!(outcome, Ok(Some(Charge { sections: 1, client_available: 0 })));
    assert_eq!(edit.blocks.len(), 2);
    assert_eq!(edit.blocks[0].pos, BlockPos { x: 1, y: 2, z: 3 });
    assert_eq!(edit.blocks[0].nbt.as_deref(), Some(&[10_u8, 1, 0, 1, b'a', 7, 0][..]));
    assert_eq!(edit.blocks[1].nbt, None);

    let (edit, _) = set_buffer(&body, true, HERE, &registry(false), &mut decoder);
    assert!(edit.blocks.iter().all(|b| b.nbt.is_none()));
}

#[test]
fn block_entities_are_paid_for() {
    let named = [10_u8, 0, 0, 0];
    let compressed = compress_raw(&named);
    let entity =
        PendingBlockEntity { offset: 0, original_size: 4, dictionary: 0, compressed: &compressed };
    let mut decoder = Some(Decoder::new());
    let mut budget = 7;
    assert_eq!(apply_block_entity(&entity, &mut budget, &mut decoder), Some(vec![10, 0]));
    assert_eq!(budget, 3);
    assert_eq!(apply_block_entity(&entity, &mut budget, &mut decoder), None);
    assert_eq!(budget, 3);
    let larger = PendingBlockEntity { original_size: 3, ..entity };
    // Paid for, though it does not hold what it declares.
    assert_eq!(apply_block_entity(&larger, &mut budget, &mut decoder), None);
    assert_eq!(budget, 0);
}

#[test]
fn what_was_written_before_a_fault_stays() {
    let mut w = head(0);
    w.i64(0);
    assert!(write_section_indirect(&mut w, &section(&[(0, 0, 0, 3)])));
    w.var_i32(0);
    // No sentinel follows.
    let (edit, outcome) = set_buffer(&w.into_vec(), true, HERE, &registry(false), &mut None);
    assert_eq!(outcome, Err("unexpected end of buffer".to_owned()));
    assert_eq!(edit.blocks.len(), 1);
}

#[test]
fn biomes_are_painted_cell_by_cell() {
    let mut w = head(1);
    w.u8(2).string("minecraft:plains").string("minecraft:desert").u8(2);
    w.i64(pack_block_pos(1, 0, -1));
    let mut cells = [0_u8; SECTION_VOLUME];
    cells[1 + 2 * 16 + 3 * 256] = 1;
    // Unchanged, and past the palette.
    cells[5] = 2;
    cells[6] = 3;
    w.bytes(&cells).i64(MIN_POSITION_LONG);
    let body = w.into_vec();
    let (edit, outcome) = set_buffer(&body, true, HERE, &registry(false), &mut None);
    assert_eq!(outcome, Ok(None));
    assert_eq!(edit.biomes, ["minecraft:plains", "minecraft:desert"]);
    assert_eq!(
        edit.cells,
        [BiomeWrite { pos: BlockPos { x: 68, y: 8, z: -52 }, biome: 0 }]
    );
    let (edit, outcome) = set_buffer(&body, false, HERE, &registry(false), &mut None);
    assert_eq!(outcome, Ok(None));
    assert!(edit.cells.is_empty());
}

#[test]
fn an_unknown_buffer_is_refused() {
    let (edit, outcome) =
        set_buffer(&head(2).into_vec(), true, HERE, &registry(false), &mut None);
    assert_eq!(outcome, Err("unknown buffer type: 2".to_owned()));
    assert!(edit.blocks.is_empty() && edit.cells.is_empty());
}

#[test]
fn states_are_counted() {
    let counts = tally(&[5, 7, 5, 9, 7, 5]);
    assert_eq!(counts, [(5, 3), (7, 2), (9, 1)]);
    assert_eq!(most_common(vec![(1, 2), (2, 9), (3, 2), (4, 1)], 3), [(2, 9), (1, 2), (3, 2)]);
    assert_eq!(most_common(vec![(1, 2)], 3), [(1, 2)]);
}
