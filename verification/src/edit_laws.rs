//! Laws of block and biome edits: what a packet of placements or a buffer puts into the world,
//! said by what stands in it.

use vstd::prelude::*;

use crate::buf;
use crate::buf::Error;
use crate::edits;
use crate::edits::{EntityView, NbtState, Placed, PlacementsView, Registry, SectionView};
use crate::fields;
use crate::handlers;
use crate::handlers::{BlockPos, Placement};
use crate::nbt;
use crate::palette;
use crate::permissions;
use crate::wire;

verus! {

/// Whether two positions are the same, or one step apart along one axis.
pub open spec fn adjoining(a: (i32, i32, i32), b: (i32, i32, i32)) -> bool {
    ||| a == b
    ||| a.1 == b.1 && a.2 == b.2 && (a.0 - b.0 == 1 || b.0 - a.0 == 1)
    ||| a.0 == b.0 && a.2 == b.2 && (a.1 - b.1 == 1 || b.1 - a.1 == 1)
    ||| a.0 == b.0 && a.1 == b.1 && (a.2 - b.2 == 1 || b.2 - a.2 == 1)
}

/// A single block is placed where it is wanted if its state is one of the server's. Neighbour
/// updates come with it only where the packet asks for them and no protected position adjoins;
/// without them no neighbour is notified, and the callbacks that would reshape the block or
/// replace its block entity are skipped. Nearby clients hear of it either way.
pub proof fn law_one_block_is_placed(
    pos: (i32, i32, i32),
    id: i32,
    update_neighbors: bool,
    protected: Seq<(i32, i32, i32)>,
    sequence_id: i32,
    state_count: u32,
)
    ensures
        ({
            let asked = PlacementsView {
                blocks: seq![(pos, id)],
                update_neighbors,
                protected,
                sequence_id,
            };
            let loud = update_neighbors && forall|i: int|
                0 <= i < protected.len() ==> !adjoining(#[trigger] protected[i], pos);
            edits::placed_from(asked, state_count, 0) == if 0 <= id < state_count && id < 65536 {
                seq![
                    Placed {
                        pos: BlockPos { x: pos.0, y: pos.1, z: pos.2 },
                        state: id as u16,
                        flags: Placement {
                            notify_neighbors: loud,
                            notify_listeners: true,
                            moved: !loud,
                            skip_block_added_callback: !loud,
                            skip_block_entity_replaced_callback: !loud,
                            force_state: false,
                        },
                    },
                ]
            } else {
                Seq::empty()
            }
        }),
{
    let asked = PlacementsView {
        blocks: seq![(pos, id)],
        update_neighbors,
        protected,
        sequence_id,
    };
    reveal_with_fuel(edits::placed_from, 2);
    assert forall|i: int| 0 <= i < protected.len() implies edits::touching(
        #[trigger] protected[i],
        pos,
    ) == adjoining(protected[i], pos) by {}
    let near = edits::near_protected(protected, pos);
    if near {
        let i = choose|i: int|
            0 <= i < protected.len() && edits::touching(#[trigger] protected[i], pos);
        assert(adjoining(protected[i], pos));
    }
    if exists|i: int| 0 <= i < protected.len() && adjoining(#[trigger] protected[i], pos) {
        let i = choose|i: int| 0 <= i < protected.len() && adjoining(#[trigger] protected[i], pos);
        assert(edits::touching(protected[i], pos));
    }
    assert(edits::placed_from(asked, state_count, 1) =~= Seq::empty());
    let out = edits::placed_from(asked, state_count, 0);
    if 0 <= id < state_count && id < 65536 {
        assert(out =~= seq![out[0]]);
    } else {
        assert(out =~= Seq::empty());
    }
}

/// What a packet places is what its first blocks place and then what the others do: no block
/// depends on another, none is left out, and they are placed in their order.
pub proof fn law_blocks_are_placed_in_order(asked: PlacementsView, k: int, state_count: u32)
    requires
        0 <= k <= asked.blocks.len(),
    ensures
        edits::placed_from(asked, state_count, 0) == edits::placed_from(
            PlacementsView { blocks: asked.blocks.take(k), ..asked },
            state_count,
            0,
        ) + edits::placed_from(
            PlacementsView { blocks: asked.blocks.skip(k), ..asked },
            state_count,
            0,
        ),
{
    lemma_placed_prefix(asked, k, state_count, 0);
    lemma_placed_suffix(asked, k, state_count, k);
}

proof fn lemma_placed_prefix(asked: PlacementsView, k: int, state_count: u32, from: int)
    requires
        0 <= from <= k <= asked.blocks.len(),
    ensures
        edits::placed_from(asked, state_count, from) == edits::placed_from(
            PlacementsView { blocks: asked.blocks.take(k), ..asked },
            state_count,
            from,
        ) + edits::placed_from(asked, state_count, k),
    decreases k - from,
{
    let first = PlacementsView { blocks: asked.blocks.take(k), ..asked };
    let tail = edits::placed_from(asked, state_count, k);
    if from == k {
        assert(edits::placed_from(first, state_count, from) + tail =~= tail);
    } else {
        lemma_placed_prefix(asked, k, state_count, from + 1);
        assert(first.blocks[from] == asked.blocks[from]);
        assert(edits::placed_from(asked, state_count, from) =~= edits::placed_from(
            first,
            state_count,
            from,
        ) + tail);
    }
}

proof fn lemma_placed_suffix(asked: PlacementsView, k: int, state_count: u32, from: int)
    requires
        0 <= k <= from <= asked.blocks.len(),
    ensures
        edits::placed_from(asked, state_count, from) == edits::placed_from(
            PlacementsView { blocks: asked.blocks.skip(k), ..asked },
            state_count,
            from - k,
        ),
    decreases asked.blocks.len() - from,
{
    if from < asked.blocks.len() {
        lemma_placed_suffix(asked, k, state_count, from + 1);
        assert(asked.blocks.skip(k)[from - k] == asked.blocks[from]);
    }
}

/// Whether a position can be packed.
pub open spec fn packable(pos: (i32, i32, i32)) -> bool {
    &&& -0x200_0000 <= pos.0 < 0x200_0000
    &&& -0x800 <= pos.1 < 0x800
    &&& -0x200_0000 <= pos.2 < 0x200_0000
}

/// Positions as they follow each other on the wire.
pub open spec fn positions_bytes(list: Seq<(i32, i32, i32)>) -> Seq<u8>
    decreases list.len(),
{
    if list.len() == 0 {
        Seq::empty()
    } else {
        wire::block_pos_bytes(list[0].0, list[0].1, list[0].2) + positions_bytes(list.skip(1))
    }
}

/// Blocks as they follow each other on the wire: a position, then the state wanted there.
pub open spec fn blocks_bytes(blocks: Seq<((i32, i32, i32), i32)>) -> Seq<u8>
    decreases blocks.len(),
{
    if blocks.len() == 0 {
        Seq::empty()
    } else {
        wire::block_pos_bytes(blocks[0].0.0, blocks[0].0.1, blocks[0].0.2) + wire::var_i32_bytes(
            blocks[0].1,
        ) + blocks_bytes(blocks.skip(1))
    }
}

pub proof fn lemma_positions_back(d: Seq<u8>, p: int, list: Seq<(i32, i32, i32)>)
    requires
        wire::stands(d, p, positions_bytes(list)),
        forall|i: int| 0 <= i < list.len() ==> packable(#[trigger] list[i]),
    ensures
        edits::read_positions_at(d, p, list.len()) == (
            Ok::<Seq<(i32, i32, i32)>, Error>(list),
            p + positions_bytes(list).len(),
        ),
    decreases list.len(),
{
    if list.len() > 0 {
        let rest = list.skip(1);
        let (x, y, z) = list[0];
        assert(packable(list[0]));
        wire::lemma_stands_split(d, p, wire::block_pos_bytes(x, y, z), positions_bytes(rest));
        wire::law_block_pos_round_trip(d, p, x, y, z);
        wire::law_i64_round_trip(d, p, wire::packed(x, y, z));
        assert forall|i: int| 0 <= i < rest.len() implies packable(#[trigger] rest[i]) by {
            assert(packable(list[i + 1]));
        }
        lemma_positions_back(d, p + 8, rest);
        assert(seq![list[0]] + rest =~= list);
    } else {
        assert(list =~= Seq::empty());
    }
}

proof fn lemma_blocks_back(d: Seq<u8>, p: int, blocks: Seq<((i32, i32, i32), i32)>)
    requires
        wire::stands(d, p, blocks_bytes(blocks)),
        forall|i: int| 0 <= i < blocks.len() ==> packable((#[trigger] blocks[i]).0),
    ensures
        edits::read_blocks_at(d, p, blocks.len()) == (
            Ok::<Seq<((i32, i32, i32), i32)>, Error>(blocks),
            p + blocks_bytes(blocks).len(),
        ),
    decreases blocks.len(),
{
    if blocks.len() > 0 {
        let rest = blocks.skip(1);
        let ((x, y, z), id) = blocks[0];
        let pos = wire::block_pos_bytes(x, y, z);
        let state = wire::var_i32_bytes(id);
        assert(packable(blocks[0].0));
        wire::lemma_stands_split(d, p, pos + state, blocks_bytes(rest));
        wire::lemma_stands_split(d, p, pos, state);
        wire::law_block_pos_round_trip(d, p, x, y, z);
        wire::law_i64_round_trip(d, p, wire::packed(x, y, z));
        wire::law_var_i32_round_trip(d, p + 8, id);
        assert forall|i: int| 0 <= i < rest.len() implies packable((#[trigger] rest[i]).0) by {
            assert(packable(blocks[i + 1].0));
        }
        lemma_blocks_back(d, p + 8 + state.len(), rest);
        assert(seq![blocks[0]] + rest =~= blocks);
    } else {
        assert(blocks =~= Seq::empty());
    }
}

/// What a packet of placements says of the click behind it: the reason, whether a block is
/// broken, the position that was hit, the face, where on it, whether inside the block, and the
/// hand.
pub struct Click {
    pub reason: i32,
    pub breaking: bool,
    pub hit: i64,
    pub face: i32,
    pub at: (u32, u32, u32),
    pub inside: bool,
    pub hand: i32,
}

/// A click as it stands on the wire.
pub open spec fn click_bytes(c: Click) -> Seq<Seq<u8>> {
    seq![
        wire::var_i32_bytes(c.reason),
        wire::bool_bytes(c.breaking),
        wire::i64_bytes(c.hit),
        wire::var_i32_bytes(c.face),
        wire::to_be(c.at.0 as nat, 4),
        wire::to_be(c.at.1 as nat, 4),
        wire::to_be(c.at.2 as nat, 4),
        wire::bool_bytes(c.inside),
        wire::var_i32_bytes(c.hand),
    ]
}

/// Passes over one part and goes on with the others.
proof fn lemma_past_one(d: Seq<u8>, p: int, parts: Seq<fields::Part>, q: int)
    requires
        parts.len() > 0,
        fields::past_part(d, p, parts[0]) == (Ok::<(), Error>(()), q),
    ensures
        fields::past_parts(d, p, parts) == fields::past_parts(d, q, parts.skip(1)),
{
}

proof fn lemma_click(d: Seq<u8>, p: int, c: Click)
    requires
        wire::laid(d, p, click_bytes(c)),
    ensures
        fields::past_parts(d, p, edits::click()) == (
            Ok::<(), Error>(()),
            p + wire::total(click_bytes(c)),
        ),
{
    let parts = click_bytes(c);
    let all = edits::click();
    reveal_with_fuel(wire::laid, 10);
    reveal_with_fuel(wire::total, 10);
    let p1 = p + parts[0].len();
    let p2 = p1 + 1;
    let p3 = p2 + 8;
    let p4 = p3 + parts[3].len();
    wire::law_var_i32_round_trip(d, p, c.reason);
    lemma_past_one(d, p, all, p1);
    lemma_past_one(d, p1, all.skip(1), p2);
    wire::law_i64_round_trip(d, p2, c.hit);
    lemma_past_one(d, p2, all.skip(1).skip(1), p3);
    wire::law_var_i32_round_trip(d, p3, c.face);
    lemma_past_one(d, p3, all.skip(1).skip(1).skip(1), p4);
    wire::lemma_to_be_len(c.at.0 as nat, 4);
    wire::lemma_to_be_len(c.at.1 as nat, 4);
    wire::lemma_to_be_len(c.at.2 as nat, 4);
    let left = all.skip(1).skip(1).skip(1).skip(1);
    lemma_past_one(d, p4, left, p4 + 4);
    lemma_past_one(d, p4 + 4, left.skip(1), p4 + 8);
    lemma_past_one(d, p4 + 8, left.skip(1).skip(1), p4 + 12);
    lemma_past_one(d, p4 + 12, left.skip(1).skip(1).skip(1), p4 + 13);
    wire::law_var_i32_round_trip(d, p4 + 13, c.hand);
    let last = left.skip(1).skip(1).skip(1).skip(1);
    lemma_past_one(d, p4 + 13, last, p4 + 13 + parts[8].len());
    assert(last.skip(1).len() == 0);
}

/// The positions that a packet protects, as they stand on the wire: there are none without
/// neighbour updates.
pub open spec fn protected_bytes(update_neighbors: bool, protected: Seq<(i32, i32, i32)>) -> Seq<u8> {
    if update_neighbors {
        wire::len_bytes(protected.len()) + positions_bytes(protected)
    } else {
        Seq::empty()
    }
}

proof fn lemma_protected_back(
    d: Seq<u8>,
    p: int,
    update_neighbors: bool,
    protected: Seq<(i32, i32, i32)>,
)
    requires
        protected.len() <= 1024,
        !update_neighbors ==> protected.len() == 0,
        forall|i: int| 0 <= i < protected.len() ==> packable(#[trigger] protected[i]),
        wire::stands(d, p, protected_bytes(update_neighbors, protected)),
    ensures
        edits::read_protected_at(d, p, update_neighbors) == (
            Ok::<Seq<(i32, i32, i32)>, Error>(protected),
            p + protected_bytes(update_neighbors, protected).len(),
        ),
{
    if update_neighbors {
        let n = wire::len_bytes(protected.len());
        wire::lemma_stands_split(d, p, n, positions_bytes(protected));
        wire::law_var_len_round_trip(d, p, protected.len(), "prevent-updates set", 1024);
        lemma_positions_back(d, p + n.len(), protected);
    } else {
        assert(protected =~= Seq::empty());
    }
}

/// Where the parts of a packet of placements stand.
proof fn lemma_placements_laid(
    d: Seq<u8>,
    a: Seq<u8>,
    b: Seq<u8>,
    c: Seq<u8>,
    e: Seq<u8>,
    middle: Seq<Seq<u8>>,
    last: Seq<u8>,
)
    requires
        wire::laid(d, 0, seq![a, b, c, e] + middle + seq![last]),
    ensures
        ({
            let q4 = (a.len() + b.len() + c.len() + e.len()) as int;
            &&& wire::stands(d, 0, a)
            &&& wire::stands(d, a.len() as int, b)
            &&& wire::stands(d, (a.len() + b.len()) as int, c)
            &&& wire::stands(d, (a.len() + b.len() + c.len()) as int, e)
            &&& wire::laid(d, q4, middle)
            &&& wire::stands(d, q4 + wire::total(middle), last)
        }),
{
    let head = seq![a, b, c, e];
    wire::lemma_laid_parts(d, 0, head + middle, seq![last]);
    wire::lemma_laid_parts(d, 0, head, middle);
    reveal_with_fuel(wire::laid, 5);
    reveal_with_fuel(wire::total, 5);
    assert(wire::total(head) == a.len() + b.len() + c.len() + e.len());
    assert(seq![last][0] == last);
}

proof fn lemma_placements_back(
    body: Seq<u8>,
    blocks: Seq<((i32, i32, i32), i32)>,
    update_neighbors: bool,
    protected: Seq<(i32, i32, i32)>,
    sequence_id: i32,
    q1: int,
    q2: int,
    q3: int,
    q4: int,
    q5: int,
    q6: int,
)
    requires
        wire::read_var_len(body, 0, "block map", 1024) == (
            Ok::<usize, Error>(blocks.len() as usize),
            q1,
        ),
        blocks.len() <= 1024,
        edits::read_blocks_at(body, q1, blocks.len()) == (
            Ok::<Seq<((i32, i32, i32), i32)>, Error>(blocks),
            q2,
        ),
        wire::read_bool(body, q2) == (Ok::<bool, Error>(update_neighbors), q3),
        edits::read_protected_at(body, q3, update_neighbors) == (
            Ok::<Seq<(i32, i32, i32)>, Error>(protected),
            q4,
        ),
        fields::past_parts(body, q4, edits::click()) == (Ok::<(), Error>(()), q5),
        wire::read_var_i32(body, q5) == (Ok::<i32, Error>(sequence_id), q6),
    ensures
        edits::placements_in(body) == Ok::<PlacementsView, Error>(
            PlacementsView { blocks, update_neighbors, protected, sequence_id },
        ),
{
}

/// A packet of placements is read as what it was made of. Its sequence is acknowledged unless it
/// is negative, whether or not its player may place anything; where they may not, nothing is
/// placed.
pub proof fn law_placements_are_read(
    body: Seq<u8>,
    blocks: Seq<((i32, i32, i32), i32)>,
    update_neighbors: bool,
    protected: Seq<(i32, i32, i32)>,
    click: Click,
    sequence_id: i32,
    state_count: u32,
)
    requires
        blocks.len() <= 1024,
        protected.len() <= 1024,
        !update_neighbors ==> protected.len() == 0,
        forall|i: int| 0 <= i < blocks.len() ==> packable((#[trigger] blocks[i]).0),
        forall|i: int| 0 <= i < protected.len() ==> packable(#[trigger] protected[i]),
        wire::laid(
            body,
            0,
            seq![
                wire::len_bytes(blocks.len()),
                blocks_bytes(blocks),
                wire::bool_bytes(update_neighbors),
                protected_bytes(update_neighbors, protected),
            ] + click_bytes(click) + seq![wire::var_i32_bytes(sequence_id)],
        ),
    ensures
        ({
            let asked = PlacementsView { blocks, update_neighbors, protected, sequence_id };
            let acknowledge = if sequence_id < 0 {
                None
            } else {
                Some(sequence_id)
            };
            &&& edits::set_block_asked(body, true, state_count) == Ok::<
                (Option<i32>, Seq<Placed>),
                Seq<char>,
            >((acknowledge, edits::placed_from(asked, state_count, 0)))
            &&& edits::set_block_asked(body, false, state_count) == Ok::<
                (Option<i32>, Seq<Placed>),
                Seq<char>,
            >((acknowledge, Seq::empty()))
        }),
{
    let a = wire::len_bytes(blocks.len());
    let b = blocks_bytes(blocks);
    let c = wire::bool_bytes(update_neighbors);
    let e = protected_bytes(update_neighbors, protected);
    let last = wire::var_i32_bytes(sequence_id);
    let q1 = a.len() as int;
    let q2 = q1 + b.len();
    let q3 = q2 + 1;
    let q4 = q3 + e.len();
    let q5 = q4 + wire::total(click_bytes(click));
    lemma_placements_laid(body, a, b, c, e, click_bytes(click), last);
    wire::law_var_len_round_trip(body, 0, blocks.len(), "block map", 1024);
    lemma_blocks_back(body, q1, blocks);
    wire::law_bool_round_trip(body, q2, update_neighbors);
    lemma_protected_back(body, q3, update_neighbors, protected);
    lemma_click(body, q4, click);
    wire::law_var_i32_round_trip(body, q5, sequence_id);
    lemma_placements_back(
        body,
        blocks,
        update_neighbors,
        protected,
        sequence_id,
        q1,
        q2,
        q3,
        q4,
        q5,
        q5 + last.len(),
    );
}

/// Whether entry `i` of a section is to be written: its state is one of the server's, and not
/// the one that leaves a block alone.
pub open spec fn meant(entries: Seq<u16>, registry: Registry, i: int) -> bool {
    entries[i] < registry.state_count && entries[i] != registry.empty
}

/// How many of the first `n` entries of a section are to be written.
pub open spec fn meant_before(entries: Seq<u16>, registry: Registry, n: int) -> int
    decreases n,
{
    if n <= 0 {
        0
    } else {
        meant_before(entries, registry, n - 1) + if meant(entries, registry, n - 1) {
            1int
        } else {
            0int
        }
    }
}

proof fn lemma_meant_grows(entries: Seq<u16>, registry: Registry, a: int, b: int)
    requires
        0 <= a <= b,
    ensures
        meant_before(entries, registry, a) <= meant_before(entries, registry, b),
    decreases b - a,
{
    if a < b {
        lemma_meant_grows(entries, registry, a, b - 1);
    }
}

proof fn lemma_section_writes(section: SectionView, registry: Registry, state: NbtState, from: int)
    requires
        0 <= from <= 4096,
    ensures
        ({
            let out = edits::section_applied(section, registry, state, from).0;
            let done = meant_before(section.entries, registry, from);
            &&& out.len() == meant_before(section.entries, registry, 4096) - done
            &&& forall|i: int| #![trigger section.entries[i]]
                from <= i < 4096 && meant(section.entries, registry, i) ==> {
                    let k = meant_before(section.entries, registry, i) - done;
                    &&& 0 <= k < out.len()
                    &&& out[k].state == section.entries[i]
                    &&& out[k].pos == (BlockPos {
                        x: (16 * section.place.0 + i % 16) as i32,
                        y: (16 * section.place.1 + i / 256) as i32,
                        z: (16 * section.place.2 + (i / 16) % 16) as i32,
                    })
                }
        }),
    decreases 4096 - from,
{
    let entries = section.entries;
    let out = edits::section_applied(section, registry, state, from).0;
    let done = meant_before(entries, registry, from);
    if from < 4096 {
        let (write, next) = edits::entry_applied(section, registry, state, from);
        let rest = edits::section_applied(section, registry, next, from + 1).0;
        lemma_section_writes(section, registry, next, from + 1);
        let first = meant_before(entries, registry, from + 1);
        assert(first == done + if meant(entries, registry, from) { 1int } else { 0int });
        assert(write is Some == meant(entries, registry, from));
        assert forall|i: int| #![trigger section.entries[i]] from <= i < 4096 && meant(
            entries,
            registry,
            i,
        ) implies {
            let k = meant_before(entries, registry, i) - done;
            &&& 0 <= k < out.len()
            &&& out[k].state == section.entries[i]
            &&& out[k].pos == (BlockPos {
                x: (16 * section.place.0 + i % 16) as i32,
                y: (16 * section.place.1 + i / 256) as i32,
                z: (16 * section.place.2 + (i / 16) % 16) as i32,
            })
        } by {
            if i > from {
                lemma_meant_grows(entries, registry, from + 1, i);
                let k = meant_before(entries, registry, i) - first;
                assert(entries[i] == rest[k].state);
                if write is Some {
                    assert(out[k + 1] == rest[k]);
                }
            } else {
                lemma_meant_grows(entries, registry, from + 1, 4096);
            }
        }
    }
}

/// A section writes every one of its 4096 entries that is meant, and nothing else: as many
/// blocks as there are such entries, in their order, each with its own state at its own place.
/// Entries go by X first, then Z, then Y.
pub proof fn law_section_is_written(
    section: SectionView,
    registry: Registry,
    state: NbtState,
    i: int,
)
    requires
        0 <= i < 4096,
    ensures
        ({
            let out = edits::section_applied(section, registry, state, 0).0;
            let k = meant_before(section.entries, registry, i);
            &&& out.len() == meant_before(section.entries, registry, 4096)
            &&& meant(section.entries, registry, i) ==> {
                &&& 0 <= k < out.len()
                &&& out[k].state == section.entries[i]
                &&& out[k].pos == (BlockPos {
                    x: (16 * section.place.0 + i % 16) as i32,
                    y: (16 * section.place.1 + i / 256) as i32,
                    z: (16 * section.place.2 + (i / 16) % 16) as i32,
                })
            }
        }),
{
    lemma_section_writes(section, registry, state, 0);
    assert(section.entries[i] == section.entries[i]);
}

/// Where the first block entity of an offset stands.
pub open spec fn is_first_at(entities: Seq<EntityView>, offset: int, k: int) -> bool {
    &&& 0 <= k < entities.len()
    &&& entities[k].offset == offset
    &&& forall|j: int| 0 <= j < k ==> (#[trigger] entities[j]).offset != offset
}

proof fn lemma_entity_at(entities: Seq<EntityView>, offset: int)
    ensures
        match edits::entity_at(entities, offset) {
            Some(k) => is_first_at(entities, offset, k),
            None => forall|j: int| 0 <= j < entities.len() ==> (#[trigger] entities[j]).offset
                != offset,
        },
    decreases entities.len(),
{
    if entities.len() > 0 {
        let init = entities.drop_last();
        lemma_entity_at(init, offset);
        assert forall|j: int| 0 <= j < init.len() implies (#[trigger] entities[j]) == init[j] by {}
        match edits::entity_at(init, offset) {
            Some(k) => {
                assert(entities[k] == init[k]);
                assert forall|j: int| 0 <= j < k implies (#[trigger] entities[j]).offset
                    != offset by {
                    assert(entities[j] == init[j]);
                }
            },
            None => {
                assert forall|j: int| 0 <= j < init.len() implies (#[trigger] entities[j]).offset
                    != offset by {
                    assert(entities[j] == init[j]);
                }
            },
        }
    }
}

/// The NBT that a block entity puts into the world where it is paid for: what its compressed
/// bytes hold, exactly as long as it says, with the name of the root taken out.
pub open spec fn nbt_of(decoder: Option<Seq<Seq<u8>>>, entity: EntityView) -> Option<Seq<u8>> {
    match nbt::decompressed(decoder, entity.compressed, entity.original_size as nat) {
        Ok(named) => nbt::unnamed(named),
        Err(_) => None,
    }
}

/// A block entity is paid for with the size it declares, whatever comes of it, and is passed
/// over at no cost where it is compressed against a dictionary other than the first or costs
/// more than is left.
pub proof fn law_block_entity_is_paid_for(entity: EntityView, state: NbtState)
    ensures
        ({
            let (nbt, next) = edits::entity_applied(entity, state);
            &&& next.decoder == state.decoder
            &&& entity.dictionary == 0 && entity.original_size <= state.budget ==> {
                &&& nbt == nbt_of(state.decoder, entity)
                &&& next.budget + entity.original_size == state.budget
            }
            &&& entity.dictionary != 0 || entity.original_size > state.budget ==> {
                &&& nbt is None
                &&& next.budget == state.budget
            }
        }),
{
}

/// An entry puts NBT into the world only for those who may, only with its block, and only that
/// of the first block entity with its offset: X lowest, then Y, then Z. Where there is one, it
/// decides what comes of the entry and what is left to spend.
pub proof fn law_entry_takes_its_block_entity(
    section: SectionView,
    registry: Registry,
    state: NbtState,
    i: int,
    k: int,
)
    requires
        0 <= i < 4096,
    ensures
        ({
            let offset = i % 16 + 16 * (i / 256) + 256 * ((i / 16) % 16);
            let (write, next) = edits::entry_applied(section, registry, state, i);
            &&& write is Some == meant(section.entries, registry, i)
            &&& write is None || !registry.allow_nbt ==> next == state
            &&& write is Some && !registry.allow_nbt ==> write->Some_0.nbt is None
            &&& write is Some && registry.allow_nbt && is_first_at(section.entities, offset, k)
                ==> (write->Some_0.nbt, next) == edits::entity_applied(section.entities[k], state)
            &&& (forall|j: int|
                0 <= j < section.entities.len() ==> (#[trigger] section.entities[j]).offset
                    != offset) ==> next == state && (write is Some ==> write->Some_0.nbt is None)
        }),
{
    let offset = i % 16 + 16 * (i / 256) + 256 * ((i / 16) % 16);
    lemma_entity_at(section.entities, offset);
    assert(edits::entry_offset(i) == offset);
    if let Some(at) = edits::entity_at(section.entities, offset) {
        if is_first_at(section.entities, offset, k) {
            if k < at {
                assert(section.entities[k].offset != offset);
            } else if at < k {
                assert(section.entities[at].offset != offset);
            }
        }
    } else if is_first_at(section.entities, offset, k) {
        assert(section.entities[k].offset != offset);
    }
}

/// A section is written entry by entry: what stands at the place of entry `i` is what that entry
/// does with what the entries before it left to spend.
pub proof fn law_section_goes_entry_by_entry(
    section: SectionView,
    registry: Registry,
    state: NbtState,
    from: int,
)
    requires
        0 <= from < 4096,
    ensures
        ({
            let (write, next) = edits::entry_applied(section, registry, state, from);
            let (all, end) = edits::section_applied(section, registry, state, from);
            let (rest, last) = edits::section_applied(section, registry, next, from + 1);
            &&& end == last
            &&& write is Some ==> all == seq![write->Some_0] + rest
            &&& write is None ==> all == rest
        }),
{
}

/// A block entity as it stands on the wire: its offset, the size of its NBT, the dictionary, and
/// its compressed bytes.
pub open spec fn entity_bytes(e: EntityView) -> Seq<u8> {
    wire::to_be(e.offset as nat, 2) + wire::len_bytes(e.original_size as nat) + seq![e.dictionary]
        + wire::sized_bytes(e.compressed)
}

/// Block entities as they follow each other on the wire.
pub open spec fn entities_bytes(entities: Seq<EntityView>) -> Seq<u8>
    decreases entities.len(),
{
    if entities.len() == 0 {
        Seq::empty()
    } else {
        entity_bytes(entities[0]) + entities_bytes(entities.skip(1))
    }
}

/// Whether a block entity may be as large as it is.
pub open spec fn may_be_sent(e: EntityView) -> bool {
    e.original_size <= 1048576 && e.compressed.len() <= 1048576
}

proof fn lemma_entity_back(d: Seq<u8>, p: int, e: EntityView)
    requires
        may_be_sent(e),
        wire::stands(d, p, entity_bytes(e)),
    ensures
        edits::read_entity_at(d, p) == (
            Ok::<EntityView, Error>(e),
            p + entity_bytes(e).len(),
        ),
{
    let a = wire::to_be(e.offset as nat, 2);
    let b = wire::len_bytes(e.original_size as nat);
    let c = seq![e.dictionary];
    let f = wire::sized_bytes(e.compressed);
    wire::lemma_stands_split(d, p, a + b + c, f);
    wire::lemma_stands_split(d, p, a + b, c);
    wire::lemma_stands_split(d, p, a, b);
    wire::law_u16_round_trip(d, p, e.offset);
    wire::law_var_len_round_trip(d, p + 2, e.original_size as nat, "block entity NBT", 1048576);
    wire::law_u8_round_trip(d, p + 2 + b.len(), e.dictionary);
    wire::law_sized_round_trip(d, p + 3 + b.len(), e.compressed, "byte array", 1048576);
}

proof fn lemma_entities_back(d: Seq<u8>, p: int, entities: Seq<EntityView>)
    requires
        forall|i: int| 0 <= i < entities.len() ==> may_be_sent(#[trigger] entities[i]),
        wire::stands(d, p, entities_bytes(entities)),
    ensures
        edits::read_entities_at(d, p, entities.len()) == (
            Ok::<Seq<EntityView>, Error>(entities),
            p + entities_bytes(entities).len(),
        ),
    decreases entities.len(),
{
    if entities.len() > 0 {
        let rest = entities.skip(1);
        let first = entity_bytes(entities[0]);
        assert(may_be_sent(entities[0]));
        wire::lemma_stands_split(d, p, first, entities_bytes(rest));
        lemma_entity_back(d, p, entities[0]);
        assert forall|i: int| 0 <= i < rest.len() implies may_be_sent(#[trigger] rest[i]) by {
            assert(may_be_sent(entities[i + 1]));
        }
        lemma_entities_back(d, p + first.len(), rest);
        assert(seq![entities[0]] + rest =~= entities);
    } else {
        assert(entities =~= Seq::empty());
    }
}

/// A section of a buffer, as it stands on the wire: its place, its states with a palette, and its
/// block entities.
pub open spec fn section_bytes(s: SectionView) -> Seq<Seq<u8>> {
    seq![
        wire::block_pos_bytes(s.place.0, s.place.1, s.place.2),
        palette::indirect_bytes(s.entries),
        wire::len_bytes(s.entities.len()),
        entities_bytes(s.entities),
    ]
}

/// Whether a section can stand in a buffer: its place can be packed and is not the one that ends
/// the buffer, its states fit a palette, and there is no more than one block entity per block.
pub open spec fn sendable(s: SectionView) -> bool {
    &&& packable(s.place)
    &&& s.place != ((-33_554_432) as i32, (-2048) as i32, (-33_554_432) as i32)
    &&& s.entries.len() == 4096
    &&& palette::distinct(s.entries).len() <= 256
    &&& s.entities.len() <= 4096
    &&& forall|i: int| 0 <= i < s.entities.len() ==> may_be_sent(#[trigger] s.entities[i])
}

/// A section of a block buffer is applied, counts as one, and the buffer goes on behind it with
/// what it left to spend.
pub proof fn law_section_of_a_buffer_is_applied(
    d: Seq<u8>,
    p: int,
    section: SectionView,
    registry: Registry,
    state: NbtState,
)
    requires
        sendable(section),
        wire::laid(d, p, section_bytes(section)),
    ensures
        ({
            let all = edits::sections_applied(d, p, registry, state);
            let (writes, next) = edits::section_applied(section, registry, state, 0);
            let rest = edits::sections_applied(
                d,
                p + wire::total(section_bytes(section)),
                registry,
                next,
            );
            &&& all.writes == writes + rest.writes
            &&& all.sections == rest.sections + 1
            &&& all.end == rest.end
            &&& all.state == rest.state
        }),
{
    let (x, y, z) = section.place;
    let parts = section_bytes(section);
    reveal_with_fuel(wire::laid, 5);
    reveal_with_fuel(wire::total, 5);
    wire::law_i64_round_trip(d, p, wire::packed(x, y, z));
    wire::law_unpack_pack(x, y, z);
    edits::law_sentinel_is_the_lowest_position();
    let q = p + 8;
    palette::law_section_round_trip(section.entries, d, q);
    let q2 = q + parts[1].len();
    wire::law_var_len_round_trip(d, q2, section.entities.len(), "block entities", 4096);
    let q3 = q2 + parts[2].len();
    lemma_entities_back(d, q3, section.entities);
    let read = edits::read_section_at(d, q, wire::packed(x, y, z));
    assert(read.0 == Ok::<SectionView, Error>(section));
    assert(p < read.1 <= d.len());
}

/// A block buffer ends where the lowest position stands in place of a section.
pub proof fn law_lowest_position_ends_a_buffer(
    d: Seq<u8>,
    p: int,
    registry: Registry,
    state: NbtState,
)
    requires
        wire::stands(
            d,
            p,
            wire::block_pos_bytes((-33_554_432) as i32, (-2048) as i32, (-33_554_432) as i32),
        ),
    ensures
        ({
            let all = edits::sections_applied(d, p, registry, state);
            &&& all.writes.len() == 0
            &&& all.sections == 0
            &&& all.end == Ok::<int, Error>(p + 8)
            &&& all.state == state
        }),
{
    edits::law_sentinel_is_the_lowest_position();
    wire::law_i64_round_trip(d, p, edits::MIN_POSITION_LONG);
}

/// A block buffer for the dimension its player is in, who may build, is applied with the whole
/// budget for block entities. It is charged for its sections, against what the client says behind
/// them that it has left, or zero where it says nothing. A fault in the sections is told, and
/// what came before it stays.
pub proof fn law_block_buffer_is_charged(
    body: Seq<u8>,
    named: Seq<char>,
    id: (u64, u64),
    dimension: Seq<char>,
    registry: Registry,
    decoder: Option<Seq<Seq<u8>>>,
    available: i32,
)
    requires
        vstd::utf8::encode_utf8(named).len() <= wire::MAX_STRING_BYTES,
        wire::laid(body, 0, seq![wire::string_bytes(named), wire::uuid_bytes(id.0, id.1), seq![0u8]]),
        handlers::bare(dimension) == handlers::bare(named),
    ensures
        ({
            let p = (wire::string_bytes(named).len() + 17) as int;
            let all = edits::sections_applied(
                body,
                p,
                registry,
                NbtState { budget: 33_554_432, decoder },
            );
            let edit = edits::buffer_asked(body, true, dimension, registry, decoder);
            &&& edit.blocks == all.writes
            &&& edit.cells.len() == 0
            &&& edit.decoder == all.state.decoder
            &&& match all.end {
                Ok(q) => {
                    &&& edit.outcome matches Ok(Some(charge)) && charge.sections
                        == all.sections as usize
                    &&& wire::stands(body, q, wire::var_i32_bytes(available))
                        ==> edit.outcome->Ok_0->Some_0.client_available == available
                    &&& q == body.len() ==> edit.outcome->Ok_0->Some_0.client_available == 0
                },
                Err(e) => edit.outcome == Err::<Option<edits::Charge>, Seq<char>>(
                    buf::error_text(e),
                ),
            }
        }),
{
    lemma_buffer_head(body, named, id, 0);
    let p = (wire::string_bytes(named).len() + 17) as int;
    let all = edits::sections_applied(body, p, registry, NbtState { budget: 33_554_432, decoder });
    if let Ok(q) = all.end {
        if wire::stands(body, q, wire::var_i32_bytes(available)) {
            wire::law_var_i32_round_trip(body, q, available);
        }
    }
}

proof fn lemma_buffer_head(body: Seq<u8>, named: Seq<char>, id: (u64, u64), kind: u8)
    requires
        vstd::utf8::encode_utf8(named).len() <= wire::MAX_STRING_BYTES,
        wire::laid(body, 0, seq![wire::string_bytes(named), wire::uuid_bytes(id.0, id.1), seq![kind]]),
    ensures
        ({
            let n = wire::string_bytes(named).len() as int;
            &&& wire::read_string(body, 0) == (Ok::<Seq<char>, Error>(named), n)
            &&& wire::read_uuid(body, n) == (Ok::<(u64, u64), Error>(id), n + 16)
            &&& wire::read_u8(body, n + 16) == (Ok::<u8, Error>(kind), n + 17)
            &&& n + 17 <= body.len()
        }),
{
    let n = wire::string_bytes(named).len() as int;
    reveal_with_fuel(wire::laid, 4);
    wire::lemma_to_be_len(id.0 as nat, 8);
    wire::lemma_to_be_len(id.1 as nat, 8);
    wire::law_string_round_trip(body, 0, named);
    wire::law_uuid_round_trip(body, n, id.0, id.1);
    wire::law_u8_round_trip(body, n + 16, kind);
}

/// A buffer that its player may not apply, or for a dimension that they are not in, leaves the
/// world as it is and is not charged. One that is neither of blocks nor of biomes is a fault.
pub proof fn law_refused_buffer_changes_nothing(
    body: Seq<u8>,
    named: Seq<char>,
    id: (u64, u64),
    kind: u8,
    allowed: bool,
    dimension: Seq<char>,
    registry: Registry,
    decoder: Option<Seq<Seq<u8>>>,
)
    requires
        vstd::utf8::encode_utf8(named).len() <= wire::MAX_STRING_BYTES,
        wire::laid(body, 0, seq![wire::string_bytes(named), wire::uuid_bytes(id.0, id.1), seq![kind]]),
        !allowed || handlers::bare(dimension) != handlers::bare(named) || kind > 1,
    ensures
        ({
            let edit = edits::buffer_asked(body, allowed, dimension, registry, decoder);
            &&& edit.blocks.len() == 0
            &&& edit.cells.len() == 0
            &&& edit.decoder == decoder
            &&& !(edit.outcome matches Ok(Some(_)))
            &&& kind == 0 ==> edit.outcome is Ok
            &&& kind > 1 ==> edit.outcome is Err
        }),
{
    lemma_buffer_head(body, named, id, kind);
}

/// Whether cell `i` of a block of cells is painted: it was set, to something other than what
/// leaves a cell alone, and its biome is one of the buffer's.
pub open spec fn painted(cells: Seq<u8>, unset: u8, names: nat, i: int) -> bool {
    cells[i] != 0 && cells[i] != unset && cells[i] <= names
}

/// How many of the first `n` cells are painted.
pub open spec fn painted_before(cells: Seq<u8>, unset: u8, names: nat, n: int) -> int
    decreases n,
{
    if n <= 0 {
        0
    } else {
        painted_before(cells, unset, names, n - 1) + if painted(cells, unset, names, n - 1) {
            1int
        } else {
            0int
        }
    }
}

proof fn lemma_painted_grows(cells: Seq<u8>, unset: u8, names: nat, a: int, b: int)
    requires
        0 <= a <= b,
    ensures
        painted_before(cells, unset, names, a) <= painted_before(cells, unset, names, b),
    decreases b - a,
{
    if a < b {
        lemma_painted_grows(cells, unset, names, a, b - 1);
    }
}

proof fn lemma_cells_painted(
    place: (i32, i32, i32),
    cells: Seq<u8>,
    unset: u8,
    names: nat,
    from: int,
    i: int,
)
    requires
        0 <= from <= cells.len(),
        from <= i < cells.len(),
    ensures
        ({
            let out = edits::cells_applied(place, cells, unset, names, from);
            let done = painted_before(cells, unset, names, from);
            let k = painted_before(cells, unset, names, i) - done;
            &&& out.len() == painted_before(cells, unset, names, cells.len() as int) - done
            &&& painted(cells, unset, names, i) ==> {
                &&& 0 <= k < out.len()
                &&& out[k].biome == cells[i] - 1
                &&& out[k].pos == (BlockPos {
                    x: (64 * place.0 + 4 * (i % 16)) as i32,
                    y: (64 * place.1 + 4 * ((i / 16) % 16)) as i32,
                    z: (64 * place.2 + 4 * (i / 256)) as i32,
                })
            }
        }),
    decreases cells.len() - from,
{
    let out = edits::cells_applied(place, cells, unset, names, from);
    let rest = edits::cells_applied(place, cells, unset, names, from + 1);
    let done = painted_before(cells, unset, names, from);
    let first = painted_before(cells, unset, names, from + 1);
    assert(first == done + if painted(cells, unset, names, from) { 1int } else { 0int });
    if from + 1 < cells.len() {
        let next = if i > from { i } else { from + 1 };
        lemma_cells_painted(place, cells, unset, names, from + 1, next);
        lemma_painted_grows(cells, unset, names, from + 1, next);
        lemma_painted_grows(cells, unset, names, from + 1, cells.len() as int);
        if i > from && painted(cells, unset, names, from) {
            let k = painted_before(cells, unset, names, i) - first;
            if painted(cells, unset, names, i) {
                assert(out[k + 1] == rest[k]);
            }
        }
    } else {
        assert(rest =~= Seq::empty());
    }
}

/// A block of cells paints every cell that is set, and nothing else: as many cells as are set, in
/// their order, each with its own biome at its own place. Cells go by X first, then Y, then Z,
/// and each covers four blocks along every axis.
pub proof fn law_cells_are_painted(
    place: (i32, i32, i32),
    cells: Seq<u8>,
    unset: u8,
    names: nat,
    i: int,
)
    requires
        0 <= i < cells.len(),
    ensures
        ({
            let out = edits::cells_applied(place, cells, unset, names, 0);
            let k = painted_before(cells, unset, names, i);
            &&& out.len() == painted_before(cells, unset, names, cells.len() as int)
            &&& painted(cells, unset, names, i) ==> {
                &&& 0 <= k < out.len()
                &&& out[k].biome == cells[i] - 1
                &&& out[k].pos == (BlockPos {
                    x: (64 * place.0 + 4 * (i % 16)) as i32,
                    y: (64 * place.1 + 4 * ((i / 16) % 16)) as i32,
                    z: (64 * place.2 + 4 * (i / 256)) as i32,
                })
            }
        }),
{
    lemma_cells_painted(place, cells, unset, names, 0, i);
}

/// A block of cells in a biome buffer is painted, and the buffer goes on behind it; the lowest
/// position in place of one ends the buffer.
pub proof fn law_cells_of_a_buffer_are_painted(
    d: Seq<u8>,
    p: int,
    place: (i32, i32, i32),
    cells: Seq<u8>,
    unset: u8,
    names: nat,
)
    requires
        packable(place),
        cells.len() == 4096,
        wire::laid(d, p, seq![wire::block_pos_bytes(place.0, place.1, place.2), cells]),
    ensures
        ({
            let (all, end) = edits::biomes_applied(d, p, unset, names);
            let (rest, last) = edits::biomes_applied(d, p + 4104, unset, names);
            if place == ((-33_554_432) as i32, (-2048) as i32, (-33_554_432) as i32) {
                all.len() == 0 && end is None
            } else {
                all == edits::cells_applied(place, cells, unset, names, 0) + rest && end == last
            }
        }),
{
    reveal_with_fuel(wire::laid, 3);
    wire::law_i64_round_trip(d, p, wire::packed(place.0, place.1, place.2));
    wire::law_unpack_pack(place.0, place.1, place.2);
    edits::law_sentinel_is_the_lowest_position();
    wire::law_take(d, p + 8, cells);
}

proof fn lemma_names_back(d: Seq<u8>, p: int, names: Seq<Seq<char>>)
    requires
        forall|i: int|
            0 <= i < names.len() ==> vstd::utf8::encode_utf8(#[trigger] names[i]).len()
                <= wire::MAX_STRING_BYTES,
        wire::stands(d, p, permissions::names_bytes(names)),
    ensures
        edits::read_names_at(d, p, names.len()) == (
            Ok::<Seq<Seq<char>>, Error>(names),
            p + permissions::names_bytes(names).len(),
        ),
    decreases names.len(),
{
    if names.len() > 0 {
        let rest = names.skip(1);
        let first = wire::string_bytes(names[0]);
        wire::lemma_stands_split(d, p, first, permissions::names_bytes(rest));
        wire::law_string_round_trip(d, p, names[0]);
        assert forall|i: int| 0 <= i < rest.len() implies vstd::utf8::encode_utf8(
            #[trigger] rest[i],
        ).len() <= wire::MAX_STRING_BYTES by {
            assert(rest[i] == names[i + 1]);
        }
        lemma_names_back(d, p + first.len(), rest);
        assert(seq![names[0]] + rest =~= names);
    } else {
        assert(names =~= Seq::empty());
    }
}

/// A biome buffer for the dimension its player is in, who may build, paints the cells that stand
/// behind its palette and what leaves a cell alone, out of the biomes that the palette names. A
/// fault in the cells is told, and what came before it stays.
pub proof fn law_biome_buffer_is_painted(
    body: Seq<u8>,
    named: Seq<char>,
    id: (u64, u64),
    dimension: Seq<char>,
    names: Seq<Seq<char>>,
    unset: u8,
    registry: Registry,
    decoder: Option<Seq<Seq<u8>>>,
)
    requires
        vstd::utf8::encode_utf8(named).len() <= wire::MAX_STRING_BYTES,
        names.len() <= 255,
        forall|i: int|
            0 <= i < names.len() ==> vstd::utf8::encode_utf8(#[trigger] names[i]).len()
                <= wire::MAX_STRING_BYTES,
        wire::laid(
            body,
            0,
            seq![wire::string_bytes(named), wire::uuid_bytes(id.0, id.1), seq![1u8]] + seq![
                seq![names.len() as u8],
                permissions::names_bytes(names),
                seq![unset],
            ],
        ),
        handlers::bare(dimension) == handlers::bare(named),
    ensures
        ({
            let p = (wire::string_bytes(named).len() + 18 + permissions::names_bytes(names).len()
                + 1) as int;
            let (cells, end) = edits::biomes_applied(body, p, unset, names.len());
            let edit = edits::buffer_asked(body, true, dimension, registry, decoder);
            &&& edit.cells == cells
            &&& edit.biomes == names
            &&& edit.blocks.len() == 0
            &&& edit.outcome == match end {
                Some(e) => Err::<Option<edits::Charge>, Seq<char>>(buf::error_text(e)),
                None => Ok(None),
            }
        }),
{
    let head = seq![wire::string_bytes(named), wire::uuid_bytes(id.0, id.1), seq![1u8]];
    let tail = seq![
        seq![names.len() as u8],
        permissions::names_bytes(names),
        seq![unset],
    ];
    wire::lemma_laid_parts(body, 0, head, tail);
    lemma_buffer_head(body, named, id, 1);
    reveal_with_fuel(wire::laid, 4);
    reveal_with_fuel(wire::total, 4);
    wire::lemma_to_be_len(id.0 as nat, 8);
    wire::lemma_to_be_len(id.1 as nat, 8);
    let q = (wire::string_bytes(named).len() + 17) as int;
    wire::law_u8_round_trip(body, q, names.len() as u8);
    lemma_names_back(body, q + 1, names);
    wire::law_u8_round_trip(body, q + 1 + tail[1].len(), unset);
}

/// The first section of a block buffer is found with the width it declares and its states, where
/// the buffer is of blocks, is for the dimension, and has a section.
pub proof fn law_first_section_is_found(
    body: Seq<u8>,
    named: Seq<char>,
    uuid: (u64, u64),
    kind: u8,
    key: i64,
    dimension: Seq<char>,
    entries: Seq<u16>,
)
    requires
        vstd::utf8::encode_utf8(named).len() <= wire::MAX_STRING_BYTES,
        wire::laid(
            body,
            0,
            seq![
                wire::string_bytes(named),
                wire::uuid_bytes(uuid.0, uuid.1),
                seq![kind],
                wire::i64_bytes(key),
            ],
        ),
        palette::section_at(body, wire::string_bytes(named).len() as int + 25).0 == Ok::<
            Seq<u16>,
            Error,
        >(entries),
    ensures
        edits::first_section_in(body, dimension) == if handlers::bare(dimension) == handlers::bare(
            named,
        ) && kind == 0 && key != -9_223_371_899_415_820_288 {
            Some((body[wire::string_bytes(named).len() as int + 25], entries))
        } else {
            None
        },
{
    let s = wire::string_bytes(named).len() as int;
    reveal_with_fuel(wire::laid, 5);
    wire::lemma_to_be_len(uuid.0 as nat, 8);
    wire::lemma_to_be_len(uuid.1 as nat, 8);
    wire::law_string_round_trip(body, 0, named);
    wire::law_uuid_round_trip(body, s, uuid.0, uuid.1);
    wire::law_u8_round_trip(body, s + 16, kind);
    wire::law_i64_round_trip(body, s + 17, key);
}

} // verus!
