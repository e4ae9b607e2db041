use axiom_pumpkin::buf::{pack_block_pos, Writer};
use axiom_pumpkin::handlers::BlockPos;
use axiom_pumpkin::ticking::{is_ticked, tick_blocks, MAX_TICKED_BLOCKS};

const HERE: &str = "minecraft:overworld";

fn within(a: (i32, i32, i32), b: (i32, i32, i32)) -> Vec<u8> {
    let mut w = Writer::new();
    w.string("overworld").u8(1).block_pos(a.0, a.1, a.2).block_pos(b.0, b.1, b.2);
    w.into_vec()
}

#[test]
fn a_box_holds_its_blocks() {
    let ticked = tick_blocks(&within((1, 5, 0), (0, 5, -1)), true, HERE).unwrap().unwrap();
    assert_eq!(
        ticked.positions,
        [
            BlockPos { x: 0, y: 5, z: -1 },
            BlockPos { x: 0, y: 5, z: 0 },
            BlockPos { x: 1, y: 5, z: -1 },
            BlockPos { x: 1, y: 5, z: 0 },
        ]
    );
    assert!(ticked.message.is_none());
    assert!(is_ticked(1) && !is_ticked(0));
}

#[test]
fn a_set_holds_the_blocks_of_its_masks() {
    let mut w = Writer::new();
    w.string("overworld").u8(0).var_i32(1).i64(pack_block_pos(1, -1, 2));
    for row in 0..256 {
        // The row of z 3 and y 2.
        w.i16(if row == 3 * 16 + 2 { (1 << 4) | (1 << 0) | i16::MIN } else { 0 });
    }
    let ticked = tick_blocks(&w.into_vec(), true, HERE).unwrap().unwrap();
    let (y, z) = (-14, 35);
    assert_eq!(
        ticked.positions,
        [BlockPos { x: 16, y, z }, BlockPos { x: 20, y, z }, BlockPos { x: 31, y, z }]
    );
}

#[test]
fn too_large_a_selection_is_cut_short() {
    let ticked = tick_blocks(&within((0, 0, 0), (99, 99, 99)), true, HERE).unwrap().unwrap();
    assert_eq!(ticked.positions.len(), MAX_TICKED_BLOCKS);
    assert_eq!(
        ticked.message.as_deref(),
        Some(
            "Axiom: ticked the first 65536 of 1000000 blocks; the rest were skipped to keep the \
             server responsive"
        )
    );
}

#[test]
fn nothing_is_ticked_where_it_may_not_be() {
    let body = within((0, 0, 0), (1, 1, 1));
    assert!(tick_blocks(&body, false, HERE).unwrap().is_none());
    assert!(tick_blocks(&body, true, "minecraft:the_end").unwrap().is_none());
    let mut w = Writer::new();
    w.string("overworld").u8(2);
    assert_eq!(
        tick_blocks(&w.into_vec(), true, HERE).err().as_deref(),
        Some("unknown tick selection type: 2")
    );
    assert!(tick_blocks(&body[..body.len() - 1], true, HERE).is_err());
}
