//! Block and biome edits: single placements, and buffers of whole sections.

use vstd::prelude::*;
use vstd::string::*;

use crate::buf;
use crate::buf::{Error, Reader};
use crate::fields;
use crate::fields::Part;
use crate::handlers;
use crate::handlers::{BlockPos, Placement, MAX_COLLECTION};
use crate::nbt;
use crate::palette;
use crate::palette::SECTION_VOLUME;
use crate::text;
use crate::wire;
use crate::zstd::Decoder;

verus! {

/// Block positions that follow each other.
pub open spec fn read_positions_at(d: Seq<u8>, p: int, n: nat) -> (
    Result<Seq<(i32, i32, i32)>, Error>,
    int,
)
    decreases n,
{
    if n == 0 {
        (Ok(Seq::empty()), p)
    } else {
        match wire::read_block_pos(d, p) {
            (Err(e), q) => (Err(e), q),
            (Ok(pos), q) => match read_positions_at(d, q, (n - 1) as nat) {
                (Err(e), q2) => (Err(e), q2),
                (Ok(rest), q2) => (Ok(seq![pos] + rest), q2),
            },
        }
    }
}

/// Block positions that follow each other, each with the state that is wanted there.
pub open spec fn read_blocks_at(d: Seq<u8>, p: int, n: nat) -> (
    Result<Seq<((i32, i32, i32), i32)>, Error>,
    int,
)
    decreases n,
{
    if n == 0 {
        (Ok(Seq::empty()), p)
    } else {
        match wire::read_block_pos(d, p) {
            (Err(e), q) => (Err(e), q),
            (Ok(pos), q) => match wire::read_var_i32(d, q) {
                (Err(e), q2) => (Err(e), q2),
                (Ok(state), q2) => match read_blocks_at(d, q2, (n - 1) as nat) {
                    (Err(e), q3) => (Err(e), q3),
                    (Ok(rest), q3) => (Ok(seq![(pos, state)] + rest), q3),
                },
            },
        }
    }
}

/// The positions that are to be left alone, which are listed only where neighbours are updated.
pub open spec fn read_protected_at(d: Seq<u8>, p: int, update_neighbors: bool) -> (
    Result<Seq<(i32, i32, i32)>, Error>,
    int,
) {
    if !update_neighbors {
        (Ok(Seq::empty()), p)
    } else {
        match wire::read_var_len(d, p, "prevent-updates set", MAX_COLLECTION) {
            (Err(e), q) => (Err(e), q),
            (Ok(n), q) => read_positions_at(d, q, n as nat),
        }
    }
}

/// What stands between the protected positions and the sequence id: the reason, whether a
/// block is broken, the hit (position, face, three offsets, whether inside the block), and
/// the hand.
pub open spec fn click() -> Seq<Part> {
    seq![
        Part::Var,
        Part::Raw(1),
        Part::Raw(8),
        Part::Var,
        Part::Raw(4),
        Part::Raw(4),
        Part::Raw(4),
        Part::Raw(1),
        Part::Var,
    ]
}

/// A handful of individual placements.
#[verifier::ext_equal]
pub struct PlacementsView {
    pub blocks: Seq<((i32, i32, i32), i32)>,
    pub update_neighbors: bool,
    pub protected: Seq<(i32, i32, i32)>,
    pub sequence_id: i32,
}

/// The placements in a packet.
pub open spec fn placements_in(body: Seq<u8>) -> Result<PlacementsView, Error> {
    match wire::read_var_len(body, 0, "block map", MAX_COLLECTION) {
        (Err(e), _) => Err(e),
        (Ok(n), q) => match read_blocks_at(body, q, n as nat) {
            (Err(e), _) => Err(e),
            (Ok(blocks), q2) => match wire::read_bool(body, q2) {
                (Err(e), _) => Err(e),
                (Ok(update_neighbors), q3) => match read_protected_at(
                    body,
                    q3,
                    update_neighbors,
                ) {
                    (Err(e), _) => Err(e),
                    (Ok(protected), q4) => match fields::past_parts(body, q4, click()) {
                        (Err(e), _) => Err(e),
                        (Ok(()), q5) => match wire::read_var_i32(body, q5) {
                            (Err(e), _) => Err(e),
                            (Ok(sequence_id), _) => Ok(
                                PlacementsView {
                                    blocks,
                                    update_neighbors,
                                    protected,
                                    sequence_id,
                                },
                            ),
                        },
                    },
                },
            },
        },
    }
}

/// How far apart two numbers are.
pub open spec fn apart(a: i32, b: i32) -> int {
    if a < b {
        b - a
    } else {
        a - b
    }
}

/// Whether two positions are the same or share a face.
pub open spec fn touching(a: (i32, i32, i32), b: (i32, i32, i32)) -> bool {
    apart(a.0, b.0) + apart(a.1, b.1) + apart(a.2, b.2) <= 1
}

/// Whether a position touches one that is to be left alone.
pub open spec fn near_protected(protected: Seq<(i32, i32, i32)>, pos: (i32, i32, i32)) -> bool {
    exists|i: int| 0 <= i < protected.len() && touching(#[trigger] protected[i], pos)
}

/// A block that is put into the world.
#[derive(Clone, Copy, Debug, PartialEq, Eq, Structural)]
pub struct Placed {
    pub pos: BlockPos,
    pub state: u16,
    pub flags: Placement,
}

/// What is put into the world for the blocks from `from` on: every block whose state the
/// server knows, with neighbour updates unless it touches a protected position.
pub open spec fn placed_from(asked: PlacementsView, state_count: u32, from: int) -> Seq<Placed>
    decreases asked.blocks.len() - from,
{
    if from >= asked.blocks.len() {
        Seq::empty()
    } else {
        let (pos, id) = asked.blocks[from];
        let rest = placed_from(asked, state_count, from + 1);
        match handlers::known_state(id as int, state_count) {
            Some(state) => seq![
                Placed {
                    pos: BlockPos { x: pos.0, y: pos.1, z: pos.2 },
                    state,
                    flags: handlers::placement(
                        asked.update_neighbors && !near_protected(asked.protected, pos),
                    ),
                },
            ] + rest,
            None => rest,
        }
    }
}

/// What is done about a handful of placements.
pub struct SetBlock {
    /// The sequence to acknowledge, if any. The client predicts its own placements and rolls
    /// them back unless the sequence is acknowledged, so this has to happen even if we place
    /// nothing.
    pub acknowledge: Option<i32>,
    pub blocks: Vec<Placed>,
}

/// What a packet of placements comes to: the sequence to acknowledge and what is put into the
/// world.
pub open spec fn set_block_asked(body: Seq<u8>, allowed: bool, state_count: u32) -> Result<
    (Option<i32>, Seq<Placed>),
    Seq<char>,
> {
    match placements_in(body) {
        Err(e) => Err(buf::error_text(e)),
        Ok(asked) => Ok(
            (
                if asked.sequence_id >= 0 {
                    Some(asked.sequence_id)
                } else {
                    None
                },
                if allowed {
                    placed_from(asked, state_count, 0)
                } else {
                    Seq::empty()
                },
            ),
        ),
    }
}

/// A handful of individual placements, read.
struct Placements {
    blocks: Vec<((i32, i32, i32), i32)>,
    update_neighbors: bool,
    protected: Vec<(i32, i32, i32)>,
    sequence_id: i32,
}

impl View for Placements {
    type V = PlacementsView;

    closed spec fn view(&self) -> PlacementsView {
        PlacementsView {
            blocks: self.blocks@,
            update_neighbors: self.update_neighbors,
            protected: self.protected@,
            sequence_id: self.sequence_id,
        }
    }
}

/// What reading a list says, with the list taken by its contents.
pub open spec fn list_of<T>(r: Result<Vec<T>, Error>) -> Result<Seq<T>, Error> {
    match r {
        Ok(list) => Ok(list@),
        Err(e) => Err(e),
    }
}

fn read_positions(r: &mut Reader<'_>, n: usize) -> (res: Result<Vec<(i32, i32, i32)>, Error>)
    requires
        old(r).wf(),
    ensures
        final(r).wf(),
        final(r).data() == old(r).data(),
        (list_of(res), final(r).at()) == read_positions_at(
            old(r).data(),
            old(r).at(),
            n as nat,
        ),
{
    let mut list: Vec<(i32, i32, i32)> = Vec::new();
    assert(forall|s: Seq<(i32, i32, i32)>| list@ + s =~= s);
    let mut i: usize = 0;
    while i < n
        invariant
            i <= n,
            r.wf(),
            r.data() == old(r).data(),
            wire::after(list@, read_positions_at(r.data(), r.at(), (n - i) as nat))
                == read_positions_at(old(r).data(), old(r).at(), n as nat),
        decreases n - i,
    {
        let ghost before = list@;
        let pos: (i32, i32, i32) = r.block_pos()?;
        list.push(pos);
        i += 1;
        assert(forall|s: Seq<(i32, i32, i32)>|
            before + (seq![pos] + s) =~= before.push(pos) + s);
    }
    assert(list@ + Seq::<(i32, i32, i32)>::empty() =~= list@);
    Ok(list)
}

fn read_blocks(r: &mut Reader<'_>, n: usize) -> (res: Result<
    Vec<((i32, i32, i32), i32)>,
    Error,
>)
    requires
        old(r).wf(),
    ensures
        final(r).wf(),
        final(r).data() == old(r).data(),
        (list_of(res), final(r).at()) == read_blocks_at(old(r).data(), old(r).at(), n as nat),
{
    let mut list: Vec<((i32, i32, i32), i32)> = Vec::new();
    assert(forall|s: Seq<((i32, i32, i32), i32)>| list@ + s =~= s);
    let mut i: usize = 0;
    while i < n
        invariant
            i <= n,
            r.wf(),
            r.data() == old(r).data(),
            wire::after(list@, read_blocks_at(r.data(), r.at(), (n - i) as nat)) == read_blocks_at(
                old(r).data(),
                old(r).at(),
                n as nat,
            ),
        decreases n - i,
    {
        let ghost before = list@;
        let pos: (i32, i32, i32) = r.block_pos()?;
        let state: i32 = r.var_i32()?;
        list.push((pos, state));
        i += 1;
        assert(forall|s: Seq<((i32, i32, i32), i32)>|
            before + (seq![(pos, state)] + s) =~= before.push((pos, state)) + s);
    }
    assert(list@ + Seq::<((i32, i32, i32), i32)>::empty() =~= list@);
    Ok(list)
}

fn click_parts() -> (r: Vec<Part>)
    ensures
        r@ == click(),
{
    let r: Vec<Part> = vec![
        Part::Var,
        Part::Raw(1),
        Part::Raw(8),
        Part::Var,
        Part::Raw(4),
        Part::Raw(4),
        Part::Raw(4),
        Part::Raw(1),
        Part::Var,
    ];
    assert(r@ =~= click());
    r
}

fn read_placements(body: &[u8]) -> (res: Result<Placements, Error>)
    ensures
        match (res, placements_in(body@)) {
            (Ok(read), Ok(asked)) => read@ == asked,
            (Err(e), Err(fault)) => e == fault,
            _ => false,
        },
{
    let mut r = Reader::new(body);
    let count: usize = r.var_len("block map", MAX_COLLECTION)?;
    let blocks = read_blocks(&mut r, count)?;
    let update_neighbors: bool = r.bool()?;
    let protected: Vec<(i32, i32, i32)> = if update_neighbors {
        let n: usize = r.var_len("prevent-updates set", MAX_COLLECTION)?;
        read_positions(&mut r, n)?
    } else {
        Vec::new()
    };
    fields::skip_parts(&mut r, &click_parts())?;
    let sequence_id: i32 = r.var_i32()?;
    Ok(Placements { blocks, update_neighbors, protected, sequence_id })
}

fn distance(a: i32, b: i32) -> (r: i64)
    ensures
        r == apart(a, b),
        0 <= r <= 0xffff_ffff,
{
    if a < b {
        b as i64 - a as i64
    } else {
        a as i64 - b as i64
    }
}

fn is_near_protected(protected: &Vec<(i32, i32, i32)>, pos: (i32, i32, i32)) -> (r: bool)
    ensures
        r == near_protected(protected@, pos),
{
    let mut i: usize = 0;
    while i < protected.len()
        invariant
            i <= protected@.len(),
            forall|k: int| 0 <= k < i ==> !touching(#[trigger] protected@[k], pos),
        decreases protected@.len() - i,
    {
        let p: (i32, i32, i32) = protected[i];
        if distance(p.0, pos.0) + distance(p.1, pos.1) + distance(p.2, pos.2) <= 1 {
            assert(touching(protected@[i as int], pos));
            return true;
        }
        i += 1;
    }
    false
}

/// `axiom:set_block` — a handful of individual placements, as produced by the
/// regular place/break tools rather than a brush.
///
/// Neighbour updates are skipped for a block adjacent to any position the
/// client asked to leave alone, so a no-update placement cannot be undone by
/// its neighbour's update.
pub fn set_block(body: &[u8], allowed: bool, state_count: u32) -> (res: Result<SetBlock, String>)
    ensures
        match (res, set_block_asked(body@, allowed, state_count)) {
            (Ok(done), Ok((acknowledge, blocks))) => done.acknowledge == acknowledge
                && done.blocks@ == blocks,
            (Err(text), Err(why)) => text@ == why,
            _ => false,
        },
{
    let asked = match read_placements(body) {
        Ok(asked) => asked,
        Err(e) => return Err(e.to_string()),
    };
    let acknowledge: Option<i32> = if asked.sequence_id >= 0 {
        Some(asked.sequence_id)
    } else {
        None
    };
    let mut blocks: Vec<Placed> = Vec::new();
    if !allowed {
        return Ok(SetBlock { acknowledge, blocks });
    }
    assert(blocks@ + placed_from(asked@, state_count, 0) =~= placed_from(asked@, state_count, 0));
    let mut i: usize = 0;
    while i < asked.blocks.len()
        invariant
            i <= asked.blocks@.len(),
            blocks@ + placed_from(asked@, state_count, i as int) == placed_from(
                asked@,
                state_count,
                0,
            ),
        decreases asked.blocks@.len() - i,
    {
        let ghost before = blocks@;
        let ghost rest = placed_from(asked@, state_count, i + 1);
        let (pos, id): ((i32, i32, i32), i32) = asked.blocks[i];
        let state: Option<u16> = if 0 <= id && id <= 0xffff {
            handlers::server_state(id as u16, state_count)
        } else {
            None
        };
        if let Some(state) = state {
            let near: bool = is_near_protected(&asked.protected, pos);
            let placed = Placed {
                pos: BlockPos { x: pos.0, y: pos.1, z: pos.2 },
                state,
                flags: handlers::placement_flags(asked.update_neighbors && !near),
            };
            blocks.push(placed);
            assert(before + (seq![placed] + rest) =~= blocks@ + rest);
        }
        i += 1;
    }
    assert(blocks@ + Seq::<Placed>::empty() =~= blocks@);
    Ok(SetBlock { acknowledge, blocks })
}

/// A block buffer is terminated by this sentinel key rather than a count: the position with
/// the lowest value on every axis.
pub const MIN_POSITION_LONG: i64 = -9_223_371_899_415_820_288;

/// The sentinel is the packed position with the lowest value on every axis.
pub proof fn law_sentinel_is_the_lowest_position()
    ensures
        MIN_POSITION_LONG == wire::packed(
            (-33_554_432) as i32,
            (-2048) as i32,
            (-33_554_432) as i32,
        ),
        wire::unpacked(MIN_POSITION_LONG) == (
            (-33_554_432) as i32,
            (-2048) as i32,
            (-33_554_432) as i32,
        ),
{
}

/// A section holds one block entity per block at most.
pub const MAX_BLOCK_ENTITIES: usize = SECTION_VOLUME;

/// A single compressed block entity; generous, since these are NBT blobs.
pub const MAX_BLOCK_ENTITY_BYTES: usize = 1024 * 1024;

/// Total decompressed block entity NBT allowed per buffer. Each blob is bounded
/// on its own, but a buffer full of tiny blobs that each expand to the per-blob
/// ceiling would still be a decompression bomb.
pub const MAX_BUFFER_NBT_BYTES: usize = 32 * 1024 * 1024;

/// A block entity waiting for its block to be placed. The compressed payload is
/// borrowed from the packet rather than copied, since most of them are dropped:
/// a section carries entities for blocks the buffer may leave untouched.
#[derive(Clone, Copy)]
pub struct PendingBlockEntity<'a> {
    /// Position within the section, packed as `x | y << 4 | z << 8` — note this
    /// is not the order the block palette uses.
    pub offset: u16,
    pub original_size: usize,
    pub dictionary: u8,
    pub compressed: &'a [u8],
}

/// A block entity, taken by its contents.
#[verifier::ext_equal]
pub struct EntityView {
    pub offset: u16,
    pub original_size: usize,
    pub dictionary: u8,
    pub compressed: Seq<u8>,
}

impl<'a> View for PendingBlockEntity<'a> {
    type V = EntityView;

    open spec fn view(&self) -> EntityView {
        EntityView {
            offset: self.offset,
            original_size: self.original_size,
            dictionary: self.dictionary,
            compressed: self.compressed@,
        }
    }
}

/// Block entities, taken by their contents.
pub open spec fn entity_views(entities: Seq<PendingBlockEntity<'_>>) -> Seq<EntityView> {
    Seq::new(entities.len(), |i: int| entities[i]@)
}

/// A block entity on the wire.
pub open spec fn read_entity_at(d: Seq<u8>, p: int) -> (Result<EntityView, Error>, int) {
    match wire::read_u16(d, p) {
        (Err(e), q) => (Err(e), q),
        (Ok(offset), q) => match wire::read_var_len(
            d,
            q,
            "block entity NBT",
            nbt::MAX_DECOMPRESSED,
        ) {
            (Err(e), q2) => (Err(e), q2),
            (Ok(original_size), q2) => match wire::read_u8(d, q2) {
                (Err(e), q3) => (Err(e), q3),
                (Ok(dictionary), q3) => match wire::read_byte_array(
                    d,
                    q3,
                    MAX_BLOCK_ENTITY_BYTES,
                ) {
                    (Err(e), q4) => (Err(e), q4),
                    (Ok(compressed), q4) => (
                        Ok(EntityView { offset, original_size, dictionary, compressed }),
                        q4,
                    ),
                },
            },
        },
    }
}

/// Block entities that follow each other.
pub open spec fn read_entities_at(d: Seq<u8>, p: int, n: nat) -> (
    Result<Seq<EntityView>, Error>,
    int,
)
    decreases n,
{
    if n == 0 {
        (Ok(Seq::empty()), p)
    } else {
        match read_entity_at(d, p) {
            (Err(e), q) => (Err(e), q),
            (Ok(entity), q) => match read_entities_at(d, q, (n - 1) as nat) {
                (Err(e), q2) => (Err(e), q2),
                (Ok(rest), q2) => (Ok(seq![entity] + rest), q2),
            },
        }
    }
}

/// One section of a buffer: its place in units of sections, its states and its block entities.
#[verifier::ext_equal]
pub struct SectionView {
    pub place: (i32, i32, i32),
    pub entries: Seq<u16>,
    pub entities: Seq<EntityView>,
}

/// The section that stands behind its key.
pub open spec fn read_section_at(d: Seq<u8>, p: int, key: i64) -> (
    Result<SectionView, Error>,
    int,
) {
    match palette::section_at(d, p) {
        (Err(e), q) => (Err(e), q),
        (Ok(entries), q) => match wire::read_var_len(
            d,
            q,
            "block entities",
            MAX_BLOCK_ENTITIES,
        ) {
            (Err(e), q2) => (Err(e), q2),
            (Ok(n), q2) => match read_entities_at(d, q2, n as nat) {
                (Err(e), q3) => (Err(e), q3),
                (Ok(entities), q3) => (
                    Ok(SectionView { place: wire::unpacked(key), entries, entities }),
                    q3,
                ),
            },
        },
    }
}

/// The first block entity at an offset.
pub open spec fn entity_at(entities: Seq<EntityView>, offset: int) -> Option<int>
    decreases entities.len(),
{
    if entities.len() == 0 {
        None
    } else {
        match entity_at(entities.drop_last(), offset) {
            Some(i) => Some(i),
            None => if entities.last().offset == offset {
                Some(entities.len() - 1)
            } else {
                None
            },
        }
    }
}

/// What is left to spend on block entities, and what is known of their decoder.
#[verifier::ext_equal]
pub struct NbtState {
    pub budget: nat,
    pub decoder: Option<Seq<Seq<u8>>>,
}

/// What becomes of a block entity whose block was placed: the NBT to put there, if any, and
/// what is left to spend.
///
/// One against another dictionary, or over the budget, is skipped without being decompressed.
pub open spec fn entity_applied(entity: EntityView, state: NbtState) -> (
    Option<Seq<u8>>,
    NbtState,
) {
    if entity.dictionary != nbt::SUPPORTED_DICTIONARY || entity.original_size > state.budget {
        (None, state)
    } else {
        (
            match nbt::decompressed(
                state.decoder,
                entity.compressed,
                entity.original_size as nat,
            ) {
                Ok(named) => nbt::unnamed(named),
                Err(_) => None,
            },
            NbtState {
                budget: (state.budget - entity.original_size) as nat,
                ..state
            },
        )
    }
}

/// A block that a buffer puts into the world, with the NBT of its block entity, if it has any.
pub struct BlockWrite {
    pub pos: BlockPos,
    pub state: u16,
    pub nbt: Option<Vec<u8>>,
}

/// A block that a buffer puts into the world, taken by its contents.
#[verifier::ext_equal]
pub struct WriteView {
    pub pos: BlockPos,
    pub state: u16,
    pub nbt: Option<Seq<u8>>,
}

impl View for BlockWrite {
    type V = WriteView;

    open spec fn view(&self) -> WriteView {
        WriteView { pos: self.pos, state: self.state, nbt: nbt::document(self.nbt) }
    }
}

/// Blocks that a buffer puts into the world, taken by their contents.
pub open spec fn write_views(writes: Seq<BlockWrite>) -> Seq<WriteView> {
    Seq::new(writes.len(), |i: int| writes[i]@)
}

/// What a buffer is applied to: how many states the server knows, which of them means "leave
/// this block alone", and whether block entities may be set.
#[derive(Clone, Copy)]
pub struct Registry {
    pub state_count: u32,
    pub empty: u16,
    pub allow_nbt: bool,
}

/// The position of entry `i` of a section.
pub open spec fn entry_pos(place: (i32, i32, i32), i: int) -> BlockPos {
    BlockPos {
        x: (place.0 * 16 + i % 16) as i32,
        y: (place.1 * 16 + i / 256) as i32,
        z: (place.2 * 16 + (i / 16) % 16) as i32,
    }
}

/// The offset that a block entity of entry `i` has: X lowest, then Y, then Z.
pub open spec fn entry_offset(i: int) -> int {
    i % 16 + (i / 256) * 16 + ((i / 16) % 16) * 256
}

/// What entry `i` of a section does: the block it puts into the world, if any, and what is left
/// to spend on block entities.
pub open spec fn entry_applied(
    section: SectionView,
    registry: Registry,
    state: NbtState,
    i: int,
) -> (Option<WriteView>, NbtState) {
    match handlers::known_state(section.entries[i] as int, registry.state_count) {
        None => (None, state),
        Some(id) => if id == registry.empty {
            (None, state)
        } else {
            let (nbt, next) = match entity_at(section.entities, entry_offset(i)) {
                Some(k) if registry.allow_nbt => entity_applied(section.entities[k], state),
                _ => (None, state),
            };
            (Some(WriteView { pos: entry_pos(section.place, i), state: id, nbt }), next)
        },
    }
}

/// What the entries of a section from `from` on put into the world, in their order, and what is
/// left to spend on block entities.
pub open spec fn section_applied(
    section: SectionView,
    registry: Registry,
    state: NbtState,
    from: int,
) -> (Seq<WriteView>, NbtState)
    decreases 4096 - from,
{
    if from >= 4096 {
        (Seq::empty(), state)
    } else {
        let (write, next) = entry_applied(section, registry, state, from);
        let (rest, end) = section_applied(section, registry, next, from + 1);
        (
            match write {
                Some(write) => seq![write] + rest,
                None => rest,
            },
            end,
        )
    }
}

/// What the sections of a buffer from position `p` on come to: what they put into the world,
/// how many there are, where they end or the error that ended them, and what is left to spend.
/// Sections before an error are applied all the same.
#[verifier::ext_equal]
pub struct BufferView {
    pub writes: Seq<WriteView>,
    pub sections: nat,
    pub end: Result<int, Error>,
    pub state: NbtState,
}

pub open spec fn sections_applied(d: Seq<u8>, p: int, registry: Registry, state: NbtState) -> BufferView
    decreases d.len() - p,
{
    match wire::read_i64(d, p) {
        (Err(e), _) => BufferView { writes: Seq::empty(), sections: 0, end: Err(e), state },
        (Ok(key), q) => if key == MIN_POSITION_LONG {
            BufferView { writes: Seq::empty(), sections: 0, end: Ok(q), state }
        } else {
            match read_section_at(d, q, key) {
                (Err(e), _) => BufferView {
                    writes: Seq::empty(),
                    sections: 0,
                    end: Err(e),
                    state,
                },
                (Ok(section), q2) => if p < q2 <= d.len() {
                    let (writes, next) = section_applied(section, registry, state, 0);
                    let rest = sections_applied(d, q2, registry, next);
                    BufferView {
                        writes: writes + rest.writes,
                        sections: rest.sections + 1,
                        ..rest
                    }
                } else {
                    BufferView { writes: Seq::empty(), sections: 0, end: Err(Error::Eof), state }
                },
            }
        },
    }
}

/// What reading block entities says, with the entities taken by their contents.
pub open spec fn entities_of(r: Result<Vec<PendingBlockEntity<'_>>, Error>) -> Result<
    Seq<EntityView>,
    Error,
> {
    match r {
        Ok(entities) => Ok(entity_views(entities@)),
        Err(e) => Err(e),
    }
}

fn read_entity<'a>(r: &mut Reader<'a>) -> (res: Result<PendingBlockEntity<'a>, Error>)
    requires
        old(r).wf(),
    ensures
        final(r).wf(),
        final(r).data() == old(r).data(),
        match (res, read_entity_at(old(r).data(), old(r).at())) {
            (Ok(entity), (Ok(read), q)) => entity@ == read && final(r).at() == q,
            (Err(e), (Err(fault), q)) => e == fault && final(r).at() == q,
            _ => false,
        },
{
    let offset: u16 = r.u16()?;
    let original_size: usize = r.var_len("block entity NBT", nbt::MAX_DECOMPRESSED)?;
    let dictionary: u8 = r.u8()?;
    let compressed = r.byte_array(MAX_BLOCK_ENTITY_BYTES)?;
    Ok(PendingBlockEntity { offset, original_size, dictionary, compressed })
}

fn read_entities<'a>(r: &mut Reader<'a>, n: usize) -> (res: Result<
    Vec<PendingBlockEntity<'a>>,
    Error,
>)
    requires
        old(r).wf(),
    ensures
        final(r).wf(),
        final(r).data() == old(r).data(),
        (entities_of(res), final(r).at()) == read_entities_at(
            old(r).data(),
            old(r).at(),
            n as nat,
        ),
{
    let mut list: Vec<PendingBlockEntity<'a>> = Vec::new();
    assert(forall|s: Seq<EntityView>| entity_views(list@) + s =~= s);
    let mut i: usize = 0;
    while i < n
        invariant
            i <= n,
            r.wf(),
            r.data() == old(r).data(),
            wire::after(entity_views(list@), read_entities_at(r.data(), r.at(), (n - i) as nat))
                == read_entities_at(old(r).data(), old(r).at(), n as nat),
        decreases n - i,
    {
        let ghost before = entity_views(list@);
        let entity = read_entity(r)?;
        let ghost fresh = entity@;
        list.push(entity);
        i += 1;
        proof {
            assert(entity_views(list@) =~= before.push(fresh));
            assert(forall|s: Seq<EntityView>|
                before + (seq![fresh] + s) =~= before.push(fresh) + s);
        }
    }
    assert(entity_views(list@) + Seq::<EntityView>::empty() =~= entity_views(list@));
    Ok(list)
}

/// Block entities end inside the buffer, and not before they start.
proof fn lemma_entities_forward(d: Seq<u8>, p: int, n: nat)
    requires
        0 <= p <= d.len(),
    ensures
        read_entities_at(d, p, n).0 is Ok ==> p <= read_entities_at(d, p, n).1 <= d.len(),
    decreases n,
{
    if n > 0 {
        if let (Ok(_), q) = read_entity_at(d, p) {
            wire::lemma_groups_forward(d, p + 2, 5);
            let q2 = wire::read_var_i32(d, p + 2).1;
            wire::lemma_groups_forward(d, q2 + 1, 5);
            lemma_entities_forward(d, q, (n - 1) as nat);
        }
    }
}

/// A section ends inside the buffer, and not before it starts, and holds a state per block.
proof fn lemma_section_forward(d: Seq<u8>, p: int, key: i64)
    requires
        0 <= p <= d.len(),
    ensures
        match read_section_at(d, p, key) {
            (Ok(section), q) => p <= q <= d.len() && section.entries.len() == 4096,
            _ => true,
        },
{
    palette::lemma_section_forward(d, p);
    if let (Ok(_), q) = palette::section_at(d, p) {
        wire::lemma_groups_forward(d, q, 5);
        if let (Ok(n), q2) = wire::read_var_len(d, q, "block entities", MAX_BLOCK_ENTITIES) {
            lemma_entities_forward(d, q2, n as nat);
        }
    }
}

/// For every offset within a section, where the first block entity with that offset stands.
fn entity_table(entities: &Vec<PendingBlockEntity<'_>>) -> (r: Vec<Option<usize>>)
    ensures
        r@.len() == 4096,
        forall|o: int|
            0 <= o < 4096 ==> match (#[trigger] r@[o], entity_at(entity_views(entities@), o)) {
                (Some(i), Some(k)) => i == k && i < entities@.len(),
                (None, None) => true,
                _ => false,
            },
{
    let ghost all = entity_views(entities@);
    let mut table: Vec<Option<usize>> = vec![None; SECTION_VOLUME];
    let mut i: usize = 0;
    while i < entities.len()
        invariant
            i <= entities@.len(),
            all == entity_views(entities@),
            table@.len() == 4096,
            forall|o: int|
                0 <= o < 4096 ==> match (#[trigger] table@[o], entity_at(all.take(i as int), o)) {
                    (Some(k), Some(at)) => k == at && k < i,
                    (None, None) => true,
                    _ => false,
                },
        decreases entities@.len() - i,
    {
        let offset: usize = entities[i].offset as usize;
        let ghost before = table@;
        proof {
            assert(all.take(i + 1).drop_last() =~= all.take(i as int));
            assert(all.take(i + 1).last() == all[i as int]);
        }
        if offset < SECTION_VOLUME && table[offset].is_none() {
            table[offset] = Some(i);
        }
        i += 1;
        assert forall|o: int| 0 <= o < 4096 implies match (
            #[trigger] table@[o],
            entity_at(all.take(i as int), o),
        ) {
            (Some(k), Some(at)) => k == at && k < i,
            (None, None) => true,
            _ => false,
        } by {}
    }
    assert(all.take(i as int) =~= all);
    table
}

/// What is left to spend on block entities, taken by its contents.
pub open spec fn nbt_state(budget: usize, decoder: Option<Decoder>) -> NbtState {
    NbtState { budget: budget as nat, decoder: nbt::decoder_state(decoder) }
}

/// The NBT of a block entity whose block was placed, if it can be had and paid for.
pub fn apply_block_entity(
    entity: &PendingBlockEntity<'_>,
    budget: &mut usize,
    decoder: &mut Option<Decoder>,
) -> (r: Option<Vec<u8>>)
    ensures
        (nbt::document(r), nbt_state(*final(budget), *final(decoder))) == entity_applied(
            entity@,
            nbt_state(*old(budget), *old(decoder)),
        ),
{
    if entity.dictionary != nbt::SUPPORTED_DICTIONARY {
        return None;
    }
    if entity.original_size > *budget {
        return None;
    }
    *budget = *budget - entity.original_size;
    match nbt::decompress(decoder, entity.compressed, entity.original_size) {
        Ok(named) => nbt::to_unnamed_root(&named),
        Err(_) => None,
    }
}

/// Where an entry stands in its section.
proof fn lemma_entry_pos(key: i64, i: int)
    requires
        0 <= i < 4096,
    ensures
        ({
            let place = wire::unpacked(key);
            &&& -0x2000_0000 <= place.0 * 16 + i % 16 <= 0x2000_0000
            &&& -0x8000 <= place.1 * 16 + i / 256 <= 0x8000
            &&& -0x2000_0000 <= place.2 * 16 + (i / 16) % 16 <= 0x2000_0000
        }),
        0 <= entry_offset(i) < 4096,
{
    let place = wire::unpacked(key);
    assert(-0x200_0000 <= place.0 < 0x200_0000);
    assert(-0x800 <= place.1 < 0x800);
    assert(-0x200_0000 <= place.2 < 0x200_0000);
    assert(0 <= i / 256 < 16 && 0 <= (i / 16) % 16 < 16 && 0 <= i % 16 < 16);
}

/// Puts the blocks of one section into what is to be written.
fn apply_section(
    key: i64,
    entries: &Vec<u16>,
    entities: &Vec<PendingBlockEntity<'_>>,
    registry: &Registry,
    budget: &mut usize,
    decoder: &mut Option<Decoder>,
    writes: &mut Vec<BlockWrite>,
)
    requires
        entries@.len() == 4096,
    ensures
        ({
            let section = SectionView {
                place: wire::unpacked(key),
                entries: entries@,
                entities: entity_views(entities@),
            };
            let (fresh, state) = section_applied(
                section,
                *registry,
                nbt_state(*old(budget), *old(decoder)),
                0,
            );
            &&& write_views(final(writes)@) == write_views(old(writes)@) + fresh
            &&& nbt_state(*final(budget), *final(decoder)) == state
        }),
{
    let ghost section = SectionView {
        place: wire::unpacked(key),
        entries: entries@,
        entities: entity_views(entities@),
    };
    let ghost start = write_views(writes@);
    let ghost whole = section_applied(section, *registry, nbt_state(*budget, *decoder), 0);
    let place: (i32, i32, i32) = buf::unpack_block_pos(key);
    let with_entities: bool = registry.allow_nbt && entities.len() > 0;
    let table: Vec<Option<usize>> = if with_entities { entity_table(entities) } else { Vec::new() };
    let mut i: usize = 0;
    while i < SECTION_VOLUME
        invariant
            i <= 4096,
            entries@.len() == 4096,
            place == wire::unpacked(key),
            section == (SectionView {
                place: wire::unpacked(key),
                entries: entries@,
                entities: entity_views(entities@),
            }),
            with_entities == (registry.allow_nbt && entities@.len() > 0),
            with_entities ==> table@.len() == 4096 && forall|o: int|
                0 <= o < 4096 ==> match (#[trigger] table@[o], entity_at(section.entities, o)) {
                    (Some(k), Some(at)) => k == at && k < entities@.len(),
                    (None, None) => true,
                    _ => false,
                },
            section_applied(section, *registry, nbt_state(*budget, *decoder), i as int).1
                == whole.1,
            write_views(writes@) + section_applied(
                section,
                *registry,
                nbt_state(*budget, *decoder),
                i as int,
            ).0 == start + whole.0,
        decreases 4096 - i,
    {
        let ghost before = write_views(writes@);
        let ghost state = nbt_state(*budget, *decoder);
        proof {
            lemma_entry_pos(key, i as int);
        }
        if let Some(id) = handlers::server_state(entries[i], registry.state_count) {
            if id != registry.empty {
                let x: i32 = (i % 16) as i32;
                let y: i32 = (i / 256) as i32;
                let z: i32 = ((i / 16) % 16) as i32;
                let pos = BlockPos {
                    x: place.0 * 16 + x,
                    y: place.1 * 16 + y,
                    z: place.2 * 16 + z,
                };
                let offset: usize = i % 16 + (i / 256) * 16 + ((i / 16) % 16) * 256;
                let found: Option<usize> = if with_entities { table[offset] } else { None };
                assert(found is None ==> !registry.allow_nbt || entity_at(
                    section.entities,
                    entry_offset(i as int),
                ) is None);
                let nbt: Option<Vec<u8>> = match found {
                    Some(k) => apply_block_entity(&entities[k], budget, decoder),
                    None => None,
                };
                let write = BlockWrite { pos, state: id, nbt };
                let ghost fresh = write@;
                writes.push(write);
                proof {
                    let next = nbt_state(*budget, *decoder);
                    assert(entry_applied(section, *registry, state, i as int) == (
                        Some(fresh),
                        next,
                    ));
                    let rest = section_applied(section, *registry, next, i + 1).0;
                    assert(write_views(writes@) =~= before.push(fresh));
                    assert(before + (seq![fresh] + rest) =~= before.push(fresh) + rest);
                }
            }
        }
        i += 1;
    }
    assert(write_views(writes@) + Seq::<WriteView>::empty() =~= write_views(writes@));
}

/// Applies the sections of a block buffer one after the other, up to the sentinel, and says how
/// many there were. What was put into the world before an error stays.
fn apply_sections(
    r: &mut Reader<'_>,
    registry: &Registry,
    budget: &mut usize,
    decoder: &mut Option<Decoder>,
    writes: &mut Vec<BlockWrite>,
) -> (res: Result<usize, Error>)
    requires
        old(r).wf(),
    ensures
        final(r).wf(),
        final(r).data() == old(r).data(),
        ({
            let done = sections_applied(
                old(r).data(),
                old(r).at(),
                *registry,
                nbt_state(*old(budget), *old(decoder)),
            );
            &&& write_views(final(writes)@) == write_views(old(writes)@) + done.writes
            &&& nbt_state(*final(budget), *final(decoder)) == done.state
            &&& match (res, done.end) {
                (Ok(sections), Ok(q)) => sections == done.sections && final(r).at() == q,
                (Err(e), Err(fault)) => e == fault,
                _ => false,
            }
        }),
{
    let ghost d = r.data();
    let ghost start = write_views(writes@);
    let ghost whole = sections_applied(d, r.at(), *registry, nbt_state(*budget, *decoder));
    let mut sections: usize = 0;
    let direct: u8 = handlers::direct_bits(registry.state_count);
    loop
        invariant
            r.wf(),
            r.data() == d,
            d == old(r).data(),
            start == write_views(old(writes)@),
            whole == sections_applied(
                d,
                old(r).at(),
                *registry,
                nbt_state(*old(budget), *old(decoder)),
            ),
            sections <= r.at(),
            ({
                let rest = sections_applied(d, r.at(), *registry, nbt_state(*budget, *decoder));
                &&& write_views(writes@) + rest.writes == start + whole.writes
                &&& rest.end == whole.end
                &&& rest.state == whole.state
                &&& sections + rest.sections == whole.sections
            }),
        decreases d.len() - r.at(),
    {
        let ghost p = r.at();
        let ghost before = write_views(writes@);
        let ghost state = nbt_state(*budget, *decoder);
        assert(before + Seq::<WriteView>::empty() =~= before);
        let key: i64 = r.i64()?;
        if key == MIN_POSITION_LONG {
            return Ok(sections);
        }
        let ghost q = r.at();
        proof {
            lemma_section_forward(d, q, key);
        }
        let entries = palette::read_section(r, direct)?;
        let count: usize = r.var_len("block entities", MAX_BLOCK_ENTITIES)?;
        let entities = read_entities(r, count)?;
        apply_section(key, &entries, &entities, registry, budget, decoder, writes);
        proof {
            let section = SectionView {
                place: wire::unpacked(key),
                entries: entries@,
                entities: entity_views(entities@),
            };
            assert(read_section_at(d, q, key) == (
                Ok::<SectionView, Error>(section),
                r.at(),
            ));
            let fresh = section_applied(section, *registry, state, 0).0;
            let rest = sections_applied(d, r.at(), *registry, nbt_state(*budget, *decoder));
            assert(before + (fresh + rest.writes) =~= write_views(writes@) + rest.writes);
        }
        sections += 1;
    }
}

/// A cell whose biome is painted: the block it starts at, and which of the buffer's biomes.
#[derive(Clone, Copy, Debug, PartialEq, Eq, Structural)]
pub struct BiomeWrite {
    pub pos: BlockPos,
    pub biome: usize,
}

/// Strings that follow each other.
pub open spec fn read_names_at(d: Seq<u8>, p: int, n: nat) -> (
    Result<Seq<Seq<char>>, Error>,
    int,
)
    decreases n,
{
    if n == 0 {
        (Ok(Seq::empty()), p)
    } else {
        match wire::read_string(d, p) {
            (Err(e), q) => (Err(e), q),
            (Ok(name), q) => match read_names_at(d, q, (n - 1) as nat) {
                (Err(e), q2) => (Err(e), q2),
                (Ok(rest), q2) => (Ok(seq![name] + rest), q2),
            },
        }
    }
}

/// The position of cell `i` of a block of cells. Cells are laid out with x fastest, then y,
/// then z; key and index are in cell units, and a cell covers four blocks per axis.
pub open spec fn cell_pos(place: (i32, i32, i32), i: int) -> BlockPos {
    BlockPos {
        x: ((place.0 * 16 + i % 16) * 4) as i32,
        y: ((place.1 * 16 + (i / 16) % 16) * 4) as i32,
        z: ((place.2 * 16 + i / 256) * 4) as i32,
    }
}

/// What the cells from `from` on paint. 0 means "never set", the default value means
/// "unchanged", and any other value is one more than a place in the palette.
pub open spec fn cells_applied(
    place: (i32, i32, i32),
    cells: Seq<u8>,
    unset: u8,
    names: nat,
    from: int,
) -> Seq<BiomeWrite>
    decreases cells.len() - from,
{
    if from >= cells.len() {
        Seq::empty()
    } else {
        let rest = cells_applied(place, cells, unset, names, from + 1);
        let entry = cells[from];
        if entry == 0 || entry == unset || entry > names {
            rest
        } else {
            seq![BiomeWrite { pos: cell_pos(place, from), biome: (entry - 1) as usize }] + rest
        }
    }
}

/// What the blocks of cells of a biome buffer from position `p` on paint, and the error that
/// ended them, if any. Cells before an error are painted all the same.
pub open spec fn biomes_applied(d: Seq<u8>, p: int, unset: u8, names: nat) -> (
    Seq<BiomeWrite>,
    Option<Error>,
)
    decreases d.len() - p,
{
    match wire::read_i64(d, p) {
        (Err(e), _) => (Seq::empty(), Some(e)),
        (Ok(key), q) => if key == MIN_POSITION_LONG {
            (Seq::empty(), None)
        } else {
            match wire::take(d, q, 4096) {
                (Err(e), _) => (Seq::empty(), Some(e)),
                (Ok(cells), q2) => {
                    let (rest, end) = biomes_applied(d, q2, unset, names);
                    (
                        cells_applied(wire::unpacked(key), cells, unset, names, 0) + rest,
                        end,
                    )
                },
            }
        },
    }
}

/// What an edit is charged for: how many sections it had, and what the client believes it has
/// left.
#[derive(Clone, Copy, Debug, PartialEq, Eq, Structural)]
pub struct Charge {
    pub sections: usize,
    pub client_available: i32,
}

/// What a buffer puts into the world.
pub struct Edit {
    pub blocks: Vec<BlockWrite>,
    /// The biomes that cells refer to, by name. One that the server does not know is skipped.
    pub biomes: Vec<String>,
    pub cells: Vec<BiomeWrite>,
}

/// What a buffer puts into the world and comes to, taken by its contents.
#[verifier::ext_equal]
pub struct EditView {
    pub blocks: Seq<WriteView>,
    pub biomes: Seq<Seq<char>>,
    pub cells: Seq<BiomeWrite>,
    pub outcome: Result<Option<Charge>, Seq<char>>,
    pub decoder: Option<Seq<Seq<u8>>>,
}

/// A buffer that leaves the world as it is.
pub open spec fn no_edit(
    outcome: Result<Option<Charge>, Seq<char>>,
    decoder: Option<Seq<Seq<u8>>>,
) -> EditView {
    EditView {
        blocks: Seq::empty(),
        biomes: Seq::empty(),
        cells: Seq::empty(),
        outcome,
        decoder,
    }
}

/// What a block buffer from position `p` on comes to. The client spends its own copy of the
/// budget before sending and says behind the sections what it has left; nothing counts as zero.
pub open spec fn block_buffer(
    d: Seq<u8>,
    p: int,
    registry: Registry,
    decoder: Option<Seq<Seq<u8>>>,
) -> EditView {
    let done = sections_applied(
        d,
        p,
        registry,
        NbtState { budget: MAX_BUFFER_NBT_BYTES as nat, decoder },
    );
    EditView {
        blocks: done.writes,
        outcome: match done.end {
            Err(e) => Err(buf::error_text(e)),
            Ok(q) => Ok(
                Some(
                    Charge {
                        sections: done.sections as usize,
                        client_available: match wire::read_var_i32(d, q) {
                            (Ok(n), _) => n,
                            (Err(_), _) => 0,
                        },
                    },
                ),
            ),
        },
        ..no_edit(Ok(None), done.state.decoder)
    }
}

/// What a biome buffer from position `p` on comes to. Its palette is read whether or not the
/// player may paint.
pub open spec fn biome_buffer(
    d: Seq<u8>,
    p: int,
    applies: bool,
    decoder: Option<Seq<Seq<u8>>>,
) -> EditView {
    match wire::read_u8(d, p) {
        (Err(e), _) => no_edit(Err(buf::error_text(e)), decoder),
        (Ok(n), q) => match read_names_at(d, q, n as nat) {
            (Err(e), _) => no_edit(Err(buf::error_text(e)), decoder),
            (Ok(names), q2) => match wire::read_u8(d, q2) {
                (Err(e), _) => no_edit(Err(buf::error_text(e)), decoder),
                (Ok(unset), q3) => if !applies {
                    no_edit(Ok(None), decoder)
                } else {
                    let (cells, end) = biomes_applied(d, q3, unset, names.len());
                    EditView {
                        biomes: names,
                        cells,
                        ..no_edit(
                            match end {
                                Some(e) => Err(buf::error_text(e)),
                                None => Ok(None),
                            },
                            decoder,
                        )
                    }
                },
            },
        },
    }
}

/// What a buffer comes to: a block buffer or a biome buffer for the world its player is in,
/// where they may edit it.
pub open spec fn buffer_asked(
    body: Seq<u8>,
    allowed: bool,
    dimension: Seq<char>,
    registry: Registry,
    decoder: Option<Seq<Seq<u8>>>,
) -> EditView {
    match wire::read_string(body, 0) {
        (Err(e), _) => no_edit(Err(buf::error_text(e)), decoder),
        (Ok(wanted), q) => match wire::read_uuid(body, q) {
            (Err(e), _) => no_edit(Err(buf::error_text(e)), decoder),
            (Ok(_), q2) => match wire::read_u8(body, q2) {
                (Err(e), _) => no_edit(Err(buf::error_text(e)), decoder),
                (Ok(kind), q3) => {
                    let applies = allowed && handlers::bare(dimension) == handlers::bare(wanted);
                    if kind == 0 {
                        if applies {
                            block_buffer(body, q3, registry, decoder)
                        } else {
                            no_edit(Ok(None), decoder)
                        }
                    } else if kind == 1 {
                        biome_buffer(body, q3, applies, decoder)
                    } else {
                        no_edit(
                            Err("unknown buffer type: "@ + text::decimal(kind as nat)),
                            decoder,
                        )
                    }
                },
            },
        },
    }
}

/// The contents of strings.
pub open spec fn texts(names: Seq<String>) -> Seq<Seq<char>> {
    Seq::new(names.len(), |i: int| names[i]@)
}

/// What reading strings says, with the strings taken by their contents.
pub open spec fn names_of(r: Result<Vec<String>, Error>) -> Result<Seq<Seq<char>>, Error> {
    match r {
        Ok(names) => Ok(texts(names@)),
        Err(e) => Err(e),
    }
}

fn read_names(r: &mut Reader<'_>, n: usize) -> (res: Result<Vec<String>, Error>)
    requires
        old(r).wf(),
    ensures
        final(r).wf(),
        final(r).data() == old(r).data(),
        (names_of(res), final(r).at()) == read_names_at(old(r).data(), old(r).at(), n as nat),
{
    let mut list: Vec<String> = Vec::new();
    assert(forall|s: Seq<Seq<char>>| texts(list@) + s =~= s);
    let mut i: usize = 0;
    while i < n
        invariant
            i <= n,
            r.wf(),
            r.data() == old(r).data(),
            wire::after(texts(list@), read_names_at(r.data(), r.at(), (n - i) as nat))
                == read_names_at(old(r).data(), old(r).at(), n as nat),
        decreases n - i,
    {
        let ghost before = texts(list@);
        let name = r.string()?.to_owned();
        let ghost fresh = name@;
        list.push(name);
        i += 1;
        proof {
            assert(texts(list@) =~= before.push(fresh));
            assert(forall|s: Seq<Seq<char>>| before + (seq![fresh] + s) =~= before.push(fresh) + s);
        }
    }
    assert(texts(list@) + Seq::<Seq<char>>::empty() =~= texts(list@));
    Ok(list)
}

/// Where a cell stands.
proof fn lemma_cell_pos(key: i64, i: int)
    requires
        0 <= i < 4096,
    ensures
        ({
            let place = wire::unpacked(key);
            &&& i32::MIN <= (place.0 * 16 + i % 16) * 4 <= i32::MAX
            &&& i32::MIN <= (place.1 * 16 + (i / 16) % 16) * 4 <= i32::MAX
            &&& i32::MIN <= (place.2 * 16 + i / 256) * 4 <= i32::MAX
            &&& -0x2000_0000 <= place.0 * 16 <= 0x1fff_fff0
            &&& -0x8000 <= place.1 * 16 <= 0x8000
            &&& -0x2000_0000 <= place.2 * 16 <= 0x1fff_fff0
        }),
{
}

/// Puts the cells of one block of cells into what is to be painted.
fn apply_cells(key: i64, cells: &[u8], unset: u8, names: usize, painted: &mut Vec<BiomeWrite>)
    requires
        cells@.len() == 4096,
    ensures
        final(painted)@ == old(painted)@ + cells_applied(
            wire::unpacked(key),
            cells@,
            unset,
            names as nat,
            0,
        ),
{
    let place: (i32, i32, i32) = buf::unpack_block_pos(key);
    let mut i: usize = 0;
    while i < cells.len()
        invariant
            i <= cells@.len(),
            cells@.len() == 4096,
            place == wire::unpacked(key),
            painted@ + cells_applied(place, cells@, unset, names as nat, i as int) == old(
                painted,
            )@ + cells_applied(place, cells@, unset, names as nat, 0),
        decreases cells@.len() - i,
    {
        let entry: u8 = cells[i];
        let ghost before = painted@;
        if entry != 0 && entry != unset && (entry as usize) <= names {
            proof {
                lemma_cell_pos(key, i as int);
            }
            let x: i32 = (i % 16) as i32;
            let y: i32 = ((i / 16) % 16) as i32;
            let z: i32 = (i / 256) as i32;
            let write = BiomeWrite {
                pos: BlockPos {
                    x: (place.0 * 16 + x) * 4,
                    y: (place.1 * 16 + y) * 4,
                    z: (place.2 * 16 + z) * 4,
                },
                biome: entry as usize - 1,
            };
            painted.push(write);
            proof {
                let rest = cells_applied(place, cells@, unset, names as nat, i + 1);
                assert(before + (seq![write] + rest) =~= painted@ + rest);
            }
        }
        i += 1;
    }
    assert(painted@ + Seq::<BiomeWrite>::empty() =~= painted@);
}

/// Paints the blocks of cells of a biome buffer one after the other, up to the sentinel. What
/// was painted before an error stays.
fn apply_biomes(
    r: &mut Reader<'_>,
    unset: u8,
    names: usize,
    painted: &mut Vec<BiomeWrite>,
) -> (res: Result<(), Error>)
    requires
        old(r).wf(),
    ensures
        final(r).wf(),
        final(r).data() == old(r).data(),
        ({
            let (cells, end) = biomes_applied(old(r).data(), old(r).at(), unset, names as nat);
            &&& final(painted)@ == old(painted)@ + cells
            &&& match (res, end) {
                (Ok(()), None) => true,
                (Err(e), Some(fault)) => e == fault,
                _ => false,
            }
        }),
{
    let ghost d = r.data();
    let ghost whole = biomes_applied(d, r.at(), unset, names as nat);
    loop
        invariant
            r.wf(),
            r.data() == d,
            d == old(r).data(),
            whole == biomes_applied(d, old(r).at(), unset, names as nat),
            biomes_applied(d, r.at(), unset, names as nat).1 == whole.1,
            painted@ + biomes_applied(d, r.at(), unset, names as nat).0 == old(painted)@
                + whole.0,
        decreases d.len() - r.at(),
    {
        let ghost before = painted@;
        assert(before + Seq::<BiomeWrite>::empty() =~= before);
        let key: i64 = r.i64()?;
        if key == MIN_POSITION_LONG {
            return Ok(());
        }
        let cells = r.take(SECTION_VOLUME)?;
        apply_cells(key, cells, unset, names, painted);
        proof {
            let fresh = cells_applied(wire::unpacked(key), cells@, unset, names as nat, 0);
            let rest = biomes_applied(d, r.at(), unset, names as nat).0;
            assert(before + (fresh + rest) =~= painted@ + rest);
        }
    }
}

/// An edit and its outcome, taken by their contents.
pub open spec fn edit_view(
    edit: Edit,
    outcome: Result<Option<Charge>, String>,
    decoder: Option<Decoder>,
) -> EditView {
    EditView {
        blocks: write_views(edit.blocks@),
        biomes: texts(edit.biomes@),
        cells: edit.cells@,
        outcome: handlers::said(outcome),
        decoder: nbt::decoder_state(decoder),
    }
}

fn empty_edit() -> (r: Edit)
    ensures
        write_views(r.blocks@) == Seq::<WriteView>::empty(),
        texts(r.biomes@) == Seq::<Seq<char>>::empty(),
        r.cells@ == Seq::<BiomeWrite>::empty(),
{
    let r = Edit { blocks: Vec::new(), biomes: Vec::new(), cells: Vec::new() };
    assert(write_views(r.blocks@) =~= Seq::<WriteView>::empty());
    assert(texts(r.biomes@) =~= Seq::<Seq<char>>::empty());
    r
}

/// A block buffer for the world its player is in.
fn apply_block_buffer(
    r: &mut Reader<'_>,
    registry: &Registry,
    decoder: &mut Option<Decoder>,
    edit: &mut Edit,
) -> (res: Result<Option<Charge>, String>)
    requires
        old(r).wf(),
        write_views(old(edit).blocks@) == Seq::<WriteView>::empty(),
        texts(old(edit).biomes@) == Seq::<Seq<char>>::empty(),
        old(edit).cells@ == Seq::<BiomeWrite>::empty(),
    ensures
        edit_view(*final(edit), res, *final(decoder)) == block_buffer(
            old(r).data(),
            old(r).at(),
            *registry,
            nbt::decoder_state(*old(decoder)),
        ),
{
    let ghost d = r.data();
    let ghost p = r.at();
    let mut budget: usize = MAX_BUFFER_NBT_BYTES;
    let ghost done = sections_applied(d, p, *registry, nbt_state(budget, *decoder));
    let end = apply_sections(r, registry, &mut budget, decoder, &mut edit.blocks);
    assert(Seq::<WriteView>::empty() + done.writes =~= done.writes);
    assert(nbt_state(budget, *decoder).decoder == done.state.decoder);
    match end {
        Ok(sections) => {
            let client_available: i32 = match r.var_i32() {
                Ok(n) => n,
                Err(_) => 0,
            };
            Ok(Some(Charge { sections, client_available }))
        },
        Err(e) => Err(e.to_string()),
    }
}

/// A biome buffer.
///
/// Biomes travel as a byte per 4x4x4 cell indexing a small per-buffer palette of
/// registry names, grouped into 16x16x16 blocks of cells.
fn apply_biome_buffer(r: &mut Reader<'_>, applies: bool, edit: &mut Edit) -> (res: Result<
    Option<Charge>,
    String,
>)
    requires
        old(r).wf(),
        write_views(old(edit).blocks@) == Seq::<WriteView>::empty(),
        texts(old(edit).biomes@) == Seq::<Seq<char>>::empty(),
        old(edit).cells@ == Seq::<BiomeWrite>::empty(),
    ensures
        forall|decoder: Option<Decoder>|
            #[trigger] edit_view(*final(edit), res, decoder) == biome_buffer(
                old(r).data(),
                old(r).at(),
                applies,
                nbt::decoder_state(decoder),
            ),
{
    let count: u8 = match r.u8() {
        Ok(n) => n,
        Err(e) => return Err(e.to_string()),
    };
    let names = match read_names(r, count as usize) {
        Ok(names) => names,
        Err(e) => return Err(e.to_string()),
    };
    let unset: u8 = match r.u8() {
        Ok(n) => n,
        Err(e) => return Err(e.to_string()),
    };
    if !applies {
        return Ok(None);
    }
    let ghost cells = biomes_applied(r.data(), r.at(), unset, names@.len()).0;
    edit.biomes = names;
    let end = apply_biomes(r, unset, edit.biomes.len(), &mut edit.cells);
    assert(Seq::<BiomeWrite>::empty() + cells =~= cells);
    match end {
        Ok(()) => Ok(None),
        Err(e) => Err(e.to_string()),
    }
}

fn unknown_buffer(kind: u8) -> (r: String)
    ensures
        r@ == "unknown buffer type: "@ + text::decimal(kind as nat),
{
    let mut out = String::new();
    out.append("unknown buffer type: ");
    text::push_decimal(&mut out, kind as u128);
    out
}

/// `axiom:set_buffer` — whole chunk sections at a time, as produced by brushes,
/// shapes and pastes, or the biome painter. Blocks left as `void_air` in the buffer are
/// untouched.
///
/// Returns what is put into the world, which is to be done whatever else comes of it, and what
/// the edit is charged for or the reason the player is kicked for.
pub fn set_buffer(
    body: &[u8],
    allowed: bool,
    dimension: &str,
    registry: &Registry,
    decoder: &mut Option<Decoder>,
) -> (r: (Edit, Result<Option<Charge>, String>))
    ensures
        edit_view(r.0, r.1, *final(decoder)) == buffer_asked(
            body@,
            allowed,
            dimension@,
            *registry,
            nbt::decoder_state(*old(decoder)),
        ),
{
    let mut r = Reader::new(body);
    let mut edit = empty_edit();
    // The dimension the client believes it is editing, then a buffer id we do not need.
    let wanted = match r.string() {
        Ok(wanted) => wanted,
        Err(e) => return (edit, Err(e.to_string())),
    };
    if let Err(e) = r.uuid() {
        return (edit, Err(e.to_string()));
    }
    let kind: u8 = match r.u8() {
        Ok(kind) => kind,
        Err(e) => return (edit, Err(e.to_string())),
    };
    let applies: bool = allowed && handlers::same_dimension(dimension, wanted);
    if kind == 0 {
        if !applies {
            return (edit, Ok(None));
        }
        let outcome = apply_block_buffer(&mut r, registry, decoder, &mut edit);
        (edit, outcome)
    } else if kind == 1 {
        let outcome = apply_biome_buffer(&mut r, applies, &mut edit);
        assert(edit_view(edit, outcome, *decoder).decoder == nbt::decoder_state(*decoder));
        (edit, outcome)
    } else {
        (edit, Err(unknown_buffer(kind)))
    }
}

/// Whether every block that is written has a state the server knows, which is not the one that
/// means "leave this block alone".
pub open spec fn all_meant(writes: Seq<WriteView>, registry: Registry) -> bool {
    forall|i: int|
        0 <= i < writes.len() ==> (#[trigger] writes[i]).state < registry.state_count
            && writes[i].state != registry.empty && (registry.allow_nbt || writes[i].nbt is None)
}

proof fn lemma_section_meant(
    section: SectionView,
    registry: Registry,
    state: NbtState,
    from: int,
)
    ensures
        all_meant(section_applied(section, registry, state, from).0, registry),
        section_applied(section, registry, state, from).1.budget <= state.budget,
        !registry.allow_nbt ==> section_applied(section, registry, state, from).1 == state,
    decreases 4096 - from,
{
    if from < 4096 {
        let (write, next) = entry_applied(section, registry, state, from);
        let rest = section_applied(section, registry, next, from + 1).0;
        let all = section_applied(section, registry, state, from).0;
        lemma_section_meant(section, registry, next, from + 1);
        if write is Some {
            assert forall|i: int| 0 <= i < all.len() implies (#[trigger] all[i]).state
                < registry.state_count && all[i].state != registry.empty && (registry.allow_nbt
                || all[i].nbt is None) by {
                if i > 0 {
                    assert(all[i] == rest[i - 1]);
                }
            }
        }
    }
}

/// A block buffer writes only states the server knows, leaves blocks that it marks alone, sets
/// block entities only for those who may, and never spends more on them than it has.
pub proof fn law_buffer_writes_what_is_meant(
    d: Seq<u8>,
    p: int,
    registry: Registry,
    state: NbtState,
)
    ensures
        all_meant(sections_applied(d, p, registry, state).writes, registry),
        sections_applied(d, p, registry, state).state.budget <= state.budget,
        !registry.allow_nbt ==> sections_applied(d, p, registry, state).state == state,
    decreases d.len() - p,
{
    if let (Ok(key), q) = wire::read_i64(d, p) {
        if key != MIN_POSITION_LONG {
            if let (Ok(section), q2) = read_section_at(d, q, key) {
                if p < q2 <= d.len() {
                    let (writes, next) = section_applied(section, registry, state, 0);
                    let rest = sections_applied(d, q2, registry, next).writes;
                    lemma_section_meant(section, registry, state, 0);
                    law_buffer_writes_what_is_meant(d, q2, registry, next);
                    let all = writes + rest;
                    assert forall|i: int| 0 <= i < all.len() implies (#[trigger] all[i]).state
                        < registry.state_count && all[i].state != registry.empty && (
                    registry.allow_nbt || all[i].nbt is None) by {
                        if i < writes.len() {
                            assert(all[i] == writes[i]);
                        } else {
                            assert(all[i] == rest[i - writes.len()]);
                        }
                    }
                }
            }
        }
    }
}

/// The width that the first section of a block buffer for a dimension declares, and its states.
pub open spec fn first_section_in(body: Seq<u8>, dimension: Seq<char>) -> Option<(u8, Seq<u16>)> {
    match wire::read_string(body, 0) {
        (Ok(named), q) => match wire::read_uuid(body, q) {
            (Ok(_), q2) => match wire::read_u8(body, q2) {
                (Ok(kind), q3) => match wire::read_i64(body, q3) {
                    (Ok(key), q4) => match palette::section_at(body, q4) {
                        (Ok(entries), _) => if handlers::bare(dimension) == handlers::bare(named)
                            && kind == 0 && key != MIN_POSITION_LONG {
                            Some((body[q4], entries))
                        } else {
                            None
                        },
                        _ => None,
                    },
                    _ => None,
                },
                _ => None,
            },
            _ => None,
        },
        _ => None,
    }
}

/// The width that the first section of a block buffer for a dimension declares, and its states,
/// for a look at what a client actually sends.
pub fn first_section(body: &[u8], dimension: &str, state_count: u32) -> (res: Option<
    (u8, Vec<u16>),
>)
    ensures
        match (res, first_section_in(body@, dimension@)) {
            (Some((bits, entries)), Some((declared, ids))) => bits == declared && entries@ == ids,
            (None, None) => true,
            _ => false,
        },
{
    let mut r = Reader::new(body);
    let here: bool = match r.string() {
        Ok(named) => handlers::same_dimension(dimension, named),
        Err(_) => return None,
    };
    if r.uuid().is_err() {
        return None;
    }
    let kind: u8 = match r.u8() {
        Ok(kind) => kind,
        Err(_) => return None,
    };
    let key: i64 = match r.i64() {
        Ok(key) => key,
        Err(_) => return None,
    };
    let declared: u8 = match r.peek_u8() {
        Ok(declared) => declared,
        Err(_) => return None,
    };
    match palette::read_section(&mut r, handlers::direct_bits(state_count)) {
        Ok(entries) => {
            if here && kind == 0 && key != MIN_POSITION_LONG {
                Some((declared, entries))
            } else {
                None
            }
        },
        Err(_) => None,
    }
}

/// How often each id occurs, in the order they first occur.
pub open spec fn counts_of(entries: Seq<u16>) -> Seq<(u16, usize)>
    decreases entries.len(),
{
    if entries.len() == 0 {
        Seq::empty()
    } else {
        let seen = counts_of(entries.drop_last());
        let id = entries.last();
        match count_place(seen, id, 0) {
            Some(i) => seen.update(i, (id, (seen[i].1 + 1) as usize)),
            None => seen.push((id, 1usize)),
        }
    }
}

/// Where an id stands among the counted ones, from `from` on.
pub open spec fn count_place(counts: Seq<(u16, usize)>, id: u16, from: int) -> Option<int>
    decreases counts.len() - from,
{
    if from >= counts.len() {
        None
    } else if counts[from].0 == id {
        Some(from)
    } else {
        count_place(counts, id, from + 1)
    }
}

/// Where the highest count from `from` on stands, the first of them if there are several.
pub open spec fn highest(counts: Seq<(u16, usize)>, from: int) -> int
    decreases counts.len() - from,
{
    if from + 1 >= counts.len() {
        from
    } else {
        let later = highest(counts, from + 1);
        if counts[later].1 > counts[from].1 {
            later
        } else {
            from
        }
    }
}

/// The `n` most common ids with their counts, the most common first; of those that are as
/// common as each other, the one that occurs first.
pub open spec fn most_common_of(counts: Seq<(u16, usize)>, n: nat) -> Seq<(u16, usize)>
    decreases n,
{
    if n == 0 || counts.len() == 0 {
        Seq::empty()
    } else {
        let at = highest(counts, 0);
        seq![counts[at]] + most_common_of(counts.remove(at), (n - 1) as nat)
    }
}

proof fn lemma_counts(entries: Seq<u16>)
    ensures
        counts_of(entries).len() <= entries.len(),
        forall|i: int|
            0 <= i < counts_of(entries).len() ==> (#[trigger] counts_of(entries)[i]).1
                <= entries.len(),
    decreases entries.len(),
{
    if entries.len() > 0 {
        lemma_counts(entries.drop_last());
        lemma_count_place(counts_of(entries.drop_last()), entries.last(), 0);
    }
}

proof fn lemma_count_place(counts: Seq<(u16, usize)>, id: u16, from: int)
    requires
        0 <= from,
    ensures
        count_place(counts, id, from) matches Some(i) ==> from <= i < counts.len()
            && counts[i].0 == id,
    decreases counts.len() - from,
{
    if from < counts.len() {
        lemma_count_place(counts, id, from + 1);
    }
}

fn count_index(counts: &Vec<(u16, usize)>, id: u16) -> (r: Option<usize>)
    ensures
        match (r, count_place(counts@, id, 0)) {
            (Some(i), Some(at)) => i == at && i < counts@.len(),
            (None, None) => true,
            _ => false,
        },
{
    let mut i: usize = 0;
    while i < counts.len()
        invariant
            i <= counts@.len(),
            count_place(counts@, id, i as int) == count_place(counts@, id, 0),
        decreases counts@.len() - i,
    {
        if counts[i].0 == id {
            return Some(i);
        }
        i += 1;
    }
    None
}

/// Counts how often each id occurs.
pub fn tally(entries: &[u16]) -> (r: Vec<(u16, usize)>)
    ensures
        r@ == counts_of(entries@),
{
    let mut counts: Vec<(u16, usize)> = Vec::new();
    let mut i: usize = 0;
    while i < entries.len()
        invariant
            i <= entries.len(),
            counts@ == counts_of(entries@.take(i as int)),
        decreases entries.len() - i,
    {
        let id: u16 = entries[i];
        proof {
            assert(entries@.take(i + 1).drop_last() =~= entries@.take(i as int));
            assert(entries@.take(i + 1).last() == id);
            lemma_counts(entries@.take(i as int));
            lemma_count_place(counts@, id, 0);
        }
        match count_index(&counts, id) {
            Some(k) => {
                let n: usize = counts[k].1;
                assert(counts@[k as int].1 <= i);
                counts[k] = (id, n + 1);
            },
            None => counts.push((id, 1)),
        }
        i += 1;
    }
    assert(entries@.take(i as int) =~= entries@);
    counts
}

fn highest_index(counts: &Vec<(u16, usize)>) -> (r: usize)
    requires
        counts@.len() > 0,
    ensures
        r == highest(counts@, 0),
        r < counts@.len(),
{
    let mut i: usize = counts.len() - 1;
    let mut best: usize = i;
    while i > 0
        invariant
            i <= best < counts@.len(),
            best == highest(counts@, i as int),
        decreases i,
    {
        i -= 1;
        if counts[best].1 <= counts[i].1 {
            best = i;
        }
    }
    best
}

/// The `n` most common ids, the most common first.
pub fn most_common(counts: Vec<(u16, usize)>, n: usize) -> (r: Vec<(u16, usize)>)
    ensures
        r@ == most_common_of(counts@, n as nat),
{
    let mut left = counts;
    let mut top: Vec<(u16, usize)> = Vec::new();
    let ghost whole = most_common_of(left@, n as nat);
    assert(top@ + whole =~= whole);
    let mut k: usize = 0;
    while k < n && left.len() > 0
        invariant
            k <= n,
            top@ + most_common_of(left@, (n - k) as nat) == whole,
        decreases n - k,
    {
        let ghost before = top@;
        let at: usize = highest_index(&left);
        let ghost rest = most_common_of(left@.remove(at as int), (n - k - 1) as nat);
        let best: (u16, usize) = left.remove(at);
        top.push(best);
        k += 1;
        assert(before + (seq![best] + rest) =~= top@ + rest);
    }
    assert(top@ + Seq::<(u16, usize)>::empty() =~= top@);
    top
}

/// How often an id occurs.
pub open spec fn occurrences(entries: Seq<u16>, id: u16) -> int
    decreases entries.len(),
{
    if entries.len() == 0 {
        0
    } else {
        occurrences(entries.drop_last(), id) + if entries.last() == id {
            1int
        } else {
            0
        }
    }
}

/// The ids that are counted.
pub open spec fn counted(counts: Seq<(u16, usize)>) -> Seq<u16> {
    Seq::new(counts.len(), |i: int| counts[i].0)
}

/// Every id that occurs is counted once, in the order they first occur, with how often it occurs.
pub proof fn law_every_id_is_counted(entries: Seq<u16>)
    requires
        entries.len() <= usize::MAX,
    ensures
        counted(counts_of(entries)) == palette::distinct(entries),
        forall|i: int|
            0 <= i < counts_of(entries).len() ==> (#[trigger] counts_of(entries)[i]).1
                == occurrences(entries, counts_of(entries)[i].0),
    decreases entries.len(),
{
    let all = counts_of(entries);
    if entries.len() == 0 {
        assert(counted(all) =~= Seq::empty());
    } else {
        let before = entries.drop_last();
        let seen = counts_of(before);
        let id = entries.last();
        law_every_id_is_counted(before);
        lemma_counts(before);
        lemma_count_place(seen, id, 0);
        lemma_counted(seen, id, 0);
        palette::lemma_distinct(before);
        lemma_absent(before, id);
        assert(counted(seen).no_duplicates());
        match count_place(seen, id, 0) {
            Some(at) => {
                assert(counted(seen)[at] == id);
                assert(counted(all) =~= counted(seen));
                assert forall|i: int| 0 <= i < all.len() implies (#[trigger] all[i]).1
                    == occurrences(entries, all[i].0) by {
                    if i != at {
                        assert(counted(seen)[i] != counted(seen)[at]);
                        assert(all[i] == seen[i]);
                    }
                }
            },
            None => {
                assert(counted(all) =~= counted(seen).push(id));
                assert forall|i: int| 0 <= i < all.len() implies (#[trigger] all[i]).1
                    == occurrences(entries, all[i].0) by {
                    if i < seen.len() {
                        assert(all[i] == seen[i]);
                        assert(counted(seen)[i] != id);
                    }
                }
            },
        }
    }
}

proof fn lemma_counted(counts: Seq<(u16, usize)>, id: u16, from: int)
    requires
        0 <= from,
    ensures
        count_place(counts, id, from) is None ==> forall|i: int|
            from <= i < counts.len() ==> (#[trigger] counts[i]).0 != id,
    decreases counts.len() - from,
{
    if from < counts.len() {
        lemma_counted(counts, id, from + 1);
    }
}

proof fn lemma_absent(entries: Seq<u16>, id: u16)
    ensures
        !palette::distinct(entries).contains(id) ==> occurrences(entries, id) == 0,
    decreases entries.len(),
{
    if entries.len() > 0 {
        let before = entries.drop_last();
        lemma_absent(before, id);
        palette::lemma_distinct(entries);
        if palette::distinct(before).contains(id) {
            let seen = palette::distinct(before);
            let k = choose|k: int| 0 <= k < seen.len() && seen[k] == id;
            assert(palette::distinct(entries)[k] == id);
        }
        assert(palette::distinct(entries).contains(entries[entries.len() - 1]));
    }
}

/// The most common id comes first, the first of them if there are several, and the most common of
/// the others follow. There are as many as are asked for, or all.
pub proof fn law_most_common_come_first(counts: Seq<(u16, usize)>, n: nat, at: int)
    requires
        0 <= at < counts.len(),
        forall|i: int| 0 <= i < counts.len() ==> (#[trigger] counts[i]).1 <= counts[at].1,
        forall|i: int| 0 <= i < at ==> (#[trigger] counts[i]).1 < counts[at].1,
        n > 0,
    ensures
        most_common_of(counts, n) == seq![counts[at]] + most_common_of(
            counts.remove(at),
            (n - 1) as nat,
        ),
        most_common_of(counts, 0).len() == 0,
        most_common_of(Seq::empty(), n).len() == 0,
        most_common_of(counts, n).len() == if n < counts.len() {
            n
        } else {
            counts.len()
        },
{
    lemma_highest(counts, 0);
    let found = highest(counts, 0);
    if found < at {
        assert(counts[found].1 < counts[at].1);
    } else if found > at {
        assert(counts[at].1 < counts[found].1);
    }
    lemma_how_many(counts, n);
}

proof fn lemma_highest(counts: Seq<(u16, usize)>, from: int)
    requires
        0 <= from < counts.len(),
    ensures
        from <= highest(counts, from) < counts.len(),
        forall|i: int|
            from <= i < counts.len() ==> (#[trigger] counts[i]).1 <= counts[highest(
                counts,
                from,
            )].1,
        forall|i: int|
            from <= i < highest(counts, from) ==> (#[trigger] counts[i]).1 < counts[highest(
                counts,
                from,
            )].1,
    decreases counts.len() - from,
{
    if from + 1 < counts.len() {
        lemma_highest(counts, from + 1);
    }
}

proof fn lemma_how_many(counts: Seq<(u16, usize)>, n: nat)
    ensures
        most_common_of(counts, n).len() == if n < counts.len() {
            n
        } else {
            counts.len()
        },
    decreases n,
{
    if n > 0 && counts.len() > 0 {
        lemma_highest(counts, 0);
        lemma_how_many(counts.remove(highest(counts, 0)), (n - 1) as nat);
    }
}

} // verus!
