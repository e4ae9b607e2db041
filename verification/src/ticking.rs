//! Block ticking: re-running block updates over a selection.

use vstd::prelude::*;
use vstd::string::*;

use crate::buf;
use crate::buf::{Error, Reader};
use crate::handlers;
use crate::handlers::{BlockPos, MAX_COLLECTION};
use crate::text;
use crate::wire;

verus! {

/// Blocks a single tick request may touch. Each block is a call into the server, so a request
/// for millions would stall the tick. Truncating and saying so beats freezing the server.
pub const MAX_TICKED_BLOCKS: usize = 65_536;

/// The position of a bit in a row of a section. Rows are ordered z then y.
pub open spec fn row_pos(place: (i32, i32, i32), row: int, x: int) -> BlockPos {
    BlockPos {
        x: (place.0 * 16 + x) as i32,
        y: (place.1 * 16 + row % 16) as i32,
        z: (place.2 * 16 + row / 16) as i32,
    }
}

/// The positions of the bits of a row that are set, from bit `x` on; `mask` holds those bits,
/// the lowest first.
pub open spec fn row_positions(place: (i32, i32, i32), row: int, mask: nat, x: int) -> Seq<BlockPos>
    decreases 16 - x,
{
    if x >= 16 {
        Seq::empty()
    } else {
        let rest = row_positions(place, row, mask / 2, x + 1);
        if mask % 2 == 1 {
            seq![row_pos(place, row, x)] + rest
        } else {
            rest
        }
    }
}

/// The positions in the rows of a section from `row` on: 256 rows of 16 X bits each.
pub open spec fn rows_at(d: Seq<u8>, p: int, place: (i32, i32, i32), row: int) -> (
    Result<Seq<BlockPos>, Error>,
    int,
)
    decreases 256 - row,
{
    if row >= 256 {
        (Ok(Seq::empty()), p)
    } else {
        match wire::read_u16(d, p) {
            (Err(e), q) => (Err(e), q),
            (Ok(mask), q) => match rows_at(d, q, place, row + 1) {
                (Err(e), q2) => (Err(e), q2),
                (Ok(rest), q2) => (
                    Ok(row_positions(place, row, mask as nat, 0) + rest),
                    q2,
                ),
            },
        }
    }
}

/// The positions in `n` sections that follow each other.
pub open spec fn sections_at(d: Seq<u8>, p: int, n: nat) -> (Result<Seq<BlockPos>, Error>, int)
    decreases n,
{
    if n == 0 {
        (Ok(Seq::empty()), p)
    } else {
        match wire::read_i64(d, p) {
            (Err(e), q) => (Err(e), q),
            (Ok(key), q) => match rows_at(d, q, wire::unpacked(key), 0) {
                (Err(e), q2) => (Err(e), q2),
                (Ok(first), q2) => match sections_at(d, q2, (n - 1) as nat) {
                    (Err(e), q3) => (Err(e), q3),
                    (Ok(rest), q3) => (Ok(first + rest), q3),
                },
            },
        }
    }
}

/// The lower of two numbers.
pub open spec fn lower(a: i32, b: i32) -> int {
    if a < b {
        a as int
    } else {
        b as int
    }
}

/// How many numbers lie from the one to the other, both included.
pub open spec fn span(a: i32, b: i32) -> nat {
    (if a < b {
        b - a + 1
    } else {
        a - b + 1
    }) as nat
}

/// How many blocks a box holds.
pub open spec fn box_volume(a: (i32, i32, i32), b: (i32, i32, i32)) -> nat {
    span(a.0, b.0) * (span(a.1, b.1) * span(a.2, b.2))
}

/// Block `k` of a box, with z fastest, then y, then x.
pub open spec fn box_pos(a: (i32, i32, i32), b: (i32, i32, i32), k: int) -> BlockPos {
    let ny = span(a.1, b.1) as int;
    let nz = span(a.2, b.2) as int;
    BlockPos {
        x: (lower(a.0, b.0) + k / (ny * nz)) as i32,
        y: (lower(a.1, b.1) + (k / nz) % ny) as i32,
        z: (lower(a.2, b.2) + k % nz) as i32,
    }
}

/// The blocks of a box.
pub open spec fn box_positions(a: (i32, i32, i32), b: (i32, i32, i32)) -> Seq<BlockPos> {
    Seq::new(box_volume(a, b), |k: int| box_pos(a, b, k))
}

/// The positions that a selection names.
pub open spec fn selection_at(d: Seq<u8>, p: int) -> Result<Seq<BlockPos>, Seq<char>> {
    match wire::read_u8(d, p) {
        (Err(e), _) => handlers::reason(e),
        (Ok(kind), q) => if kind == 0 {
            match wire::read_var_len(d, q, "position set", MAX_COLLECTION) {
                (Err(e), _) => handlers::reason(e),
                (Ok(n), q2) => match sections_at(d, q2, n as nat) {
                    (Err(e), _) => handlers::reason(e),
                    (Ok(positions), _) => Ok(positions),
                },
            }
        } else if kind == 1 {
            match wire::read_block_pos(d, q) {
                (Err(e), _) => handlers::reason(e),
                (Ok(a), q2) => match wire::read_block_pos(d, q2) {
                    (Err(e), _) => handlers::reason(e),
                    (Ok(b), _) => Ok(box_positions(a, b)),
                },
            }
        } else {
            Err("unknown tick selection type: "@ + text::signed_decimal(kind as int))
        },
    }
}

/// As many positions as a request may touch, from the first on.
pub open spec fn first_ticked(positions: Seq<BlockPos>) -> Seq<BlockPos> {
    if positions.len() <= MAX_TICKED_BLOCKS {
        positions
    } else {
        positions.take(MAX_TICKED_BLOCKS as int)
    }
}

/// What a player is told whose selection was cut short.
pub open spec fn cut_short_text(ticked: nat, requested: nat) -> Seq<char> {
    "Axiom: ticked the first "@ + text::decimal(ticked) + " of "@ + text::decimal(requested)
        + " blocks; the rest were skipped to keep the server responsive"@
}

/// Which blocks a packet ticks, and how many it asks for, where its player may and is in the
/// world it means.
pub open spec fn tick_asked(body: Seq<u8>, allowed: bool, dimension: Seq<char>) -> Result<
    Option<Seq<BlockPos>>,
    Seq<char>,
> {
    match wire::read_string(body, 0) {
        (Err(e), _) => handlers::reason(e),
        (Ok(wanted), q) => match selection_at(body, q) {
            Err(why) => Err(why),
            Ok(positions) => Ok(
                if allowed && handlers::bare(dimension) == handlers::bare(wanted) {
                    Some(positions)
                } else {
                    None
                },
            ),
        },
    }
}

/// The first positions of a selection, and how many it names in all.
struct Selection {
    positions: Vec<BlockPos>,
    requested: u128,
}

impl Selection {
    spec fn holds(&self, all: Seq<BlockPos>) -> bool {
        &&& self.positions@ == first_ticked(all)
        &&& self.requested == all.len()
    }

    fn push(&mut self, pos: BlockPos, Ghost(all): Ghost<Seq<BlockPos>>)
        requires
            old(self).holds(all),
            all.len() < 0x8000_0000,
        ensures
            final(self).holds(all.push(pos)),
    {
        self.requested = self.requested + 1;
        if self.positions.len() < MAX_TICKED_BLOCKS {
            self.positions.push(pos);
        }
        assert(self.positions@ =~= first_ticked(all.push(pos)));
    }
}

/// A row holds sixteen positions at most.
proof fn lemma_row_len(place: (i32, i32, i32), row: int, mask: nat, x: int)
    requires
        0 <= x <= 16,
    ensures
        row_positions(place, row, mask, x).len() <= 16 - x,
    decreases 16 - x,
{
    if x < 16 {
        lemma_row_len(place, row, mask / 2, x + 1);
    }
}

/// Where a row of a section stands.
proof fn lemma_row_pos(key: i64, row: int, x: int)
    requires
        0 <= row < 256,
        0 <= x < 16,
    ensures
        ({
            let place = wire::unpacked(key);
            &&& i32::MIN <= place.0 * 16 <= place.0 * 16 + x <= i32::MAX
            &&& i32::MIN <= place.1 * 16 <= place.1 * 16 + row % 16 <= i32::MAX
            &&& i32::MIN <= place.2 * 16 <= place.2 * 16 + row / 16 <= i32::MAX
        }),
{
}

/// Adds the positions of one row to a selection.
fn select_row(
    selection: &mut Selection,
    key: i64,
    row: usize,
    mask: u16,
    Ghost(all): Ghost<Seq<BlockPos>>,
)
    requires
        old(selection).holds(all),
        all.len() < 0x7000_0000,
        row < 256,
    ensures
        final(selection).holds(
            all + row_positions(wire::unpacked(key), row as int, mask as nat, 0),
        ),
{
    let place: (i32, i32, i32) = buf::unpack_block_pos(key);
    let ghost whole = row_positions(place, row as int, mask as nat, 0);
    let mut left: u16 = mask;
    let mut x: usize = 0;
    let ghost mut done = all;
    while x < 16
        invariant
            x <= 16,
            row < 256,
            place == wire::unpacked(key),
            selection.holds(done),
            done.len() <= all.len() + x,
            all.len() < 0x7000_0000,
            done + row_positions(place, row as int, left as nat, x as int) == all + whole,
        decreases 16 - x,
    {
        if left % 2 == 1 {
            proof {
                lemma_row_pos(key, row as int, x as int);
            }
            let pos = BlockPos {
                x: place.0 * 16 + x as i32,
                y: place.1 * 16 + (row % 16) as i32,
                z: place.2 * 16 + (row / 16) as i32,
            };
            selection.push(pos, Ghost(done));
            proof {
                let rest = row_positions(place, row as int, (left / 2) as nat, x + 1);
                assert(done + (seq![pos] + rest) =~= done.push(pos) + rest);
                done = done.push(pos);
            }
        }
        left = left / 2;
        x += 1;
    }
    assert(done + Seq::<BlockPos>::empty() =~= done);
}

/// Adds the positions of one section to a selection.
fn select_section(
    selection: &mut Selection,
    r: &mut Reader<'_>,
    key: i64,
    Ghost(all): Ghost<Seq<BlockPos>>,
) -> (res: Result<(), Error>)
    requires
        old(selection).holds(all),
        all.len() <= 0x6000_0000,
        old(r).wf(),
    ensures
        final(r).wf(),
        final(r).data() == old(r).data(),
        match (res, rows_at(old(r).data(), old(r).at(), wire::unpacked(key), 0)) {
            (Ok(()), (Ok(fresh), q)) => final(selection).holds(all + fresh) && fresh.len() <= 4096
                && final(r).at() == q,
            (Err(e), (Err(fault), _)) => e == fault,
            _ => false,
        },
{
    let ghost place = wire::unpacked(key);
    let ghost whole = rows_at(r.data(), r.at(), place, 0);
    let ghost mut done = Seq::<BlockPos>::empty();
    let mut row: usize = 0;
    proof {
        assert(all + done =~= all);
        assert(wire::after(done, whole) == whole) by {
            assert(forall|s: Seq<BlockPos>| done + s =~= s);
        }
    }
    while row < 256
        invariant
            row <= 256,
            r.wf(),
            r.data() == old(r).data(),
            place == wire::unpacked(key),
            whole == rows_at(old(r).data(), old(r).at(), place, 0),
            selection.holds(all + done),
            all.len() <= 0x6000_0000,
            done.len() <= row * 16,
            wire::after(done, rows_at(r.data(), r.at(), place, row as int)) == whole,
        decreases 256 - row,
    {
        let mask: u16 = r.u16()?;
        select_row(selection, key, row, mask, Ghost(all + done));
        proof {
            let fresh = row_positions(place, row as int, mask as nat, 0);
            lemma_row_len(place, row as int, mask as nat, 0);
            assert(all + done + fresh =~= all + (done + fresh));
            assert(forall|s: Seq<BlockPos>| done + (fresh + s) =~= (done + fresh) + s);
            done = done + fresh;
        }
        row += 1;
    }
    assert(done + Seq::<BlockPos>::empty() =~= done);
    Ok(())
}

/// Selects the positions of `n` sections.
fn select_sections(r: &mut Reader<'_>, n: usize) -> (res: Result<Selection, Error>)
    requires
        old(r).wf(),
        n <= MAX_COLLECTION,
    ensures
        match (res, sections_at(old(r).data(), old(r).at(), n as nat).0) {
            (Ok(selection), Ok(all)) => selection.holds(all),
            (Err(e), Err(fault)) => e == fault,
            _ => false,
        },
{
    let ghost whole = sections_at(r.data(), r.at(), n as nat);
    let mut selection = Selection { positions: Vec::new(), requested: 0 };
    let ghost mut done = Seq::<BlockPos>::empty();
    let mut i: usize = 0;
    proof {
        assert(selection.positions@ =~= first_ticked(done));
        assert(forall|s: Seq<BlockPos>| done + s =~= s);
    }
    while i < n
        invariant
            i <= n <= MAX_COLLECTION,
            r.wf(),
            r.data() == old(r).data(),
            whole == sections_at(old(r).data(), old(r).at(), n as nat),
            selection.holds(done),
            done.len() <= i * 4096,
            wire::after(done, sections_at(r.data(), r.at(), (n - i) as nat)) == whole,
        decreases n - i,
    {
        let key: i64 = r.i64()?;
        let ghost before = r.at();
        select_section(&mut selection, r, key, Ghost(done))?;
        proof {
            let fresh = rows_at(r.data(), before, wire::unpacked(key), 0).0->Ok_0;
            assert(forall|s: Seq<BlockPos>| done + (fresh + s) =~= (done + fresh) + s);
            done = done + fresh;
        }
        i += 1;
    }
    assert(done + Seq::<BlockPos>::empty() =~= done);
    Ok(selection)
}

/// Where a block of a box stands.
proof fn lemma_box_pos(a: (i32, i32, i32), b: (i32, i32, i32), k: int)
    requires
        0 <= k < box_volume(a, b),
    ensures
        ({
            let nx = span(a.0, b.0) as int;
            let ny = span(a.1, b.1) as int;
            let nz = span(a.2, b.2) as int;
            &&& 0 < ny * nz
            &&& 0 <= k / (ny * nz) < nx
            &&& 0 <= (k / nz) % ny < ny
            &&& 0 <= k % nz < nz
        }),
{
    let nx = span(a.0, b.0) as int;
    let ny = span(a.1, b.1) as int;
    let nz = span(a.2, b.2) as int;
    assert(0 < ny * nz) by (nonlinear_arith)
        requires
            0 < ny,
            0 < nz,
    ;
    let layer = ny * nz;
    assert(0 <= k / layer < nx) by (nonlinear_arith)
        requires
            0 < layer,
            0 <= k < nx * layer,
    ;
    assert(0 <= k / nz) by (nonlinear_arith)
        requires
            0 < nz,
            0 <= k,
    ;
}

fn lower_of(a: i32, b: i32) -> (r: i32)
    ensures
        r == lower(a, b),
{
    if a < b {
        a
    } else {
        b
    }
}

fn span_of(a: i32, b: i32) -> (r: u64)
    ensures
        r == span(a, b),
        1 <= r <= 0x1_0000_0000,
{
    if a < b {
        (b as i64 - a as i64 + 1) as u64
    } else {
        (a as i64 - b as i64 + 1) as u64
    }
}

/// Selects the blocks of a box.
fn select_box(a: (i32, i32, i32), b: (i32, i32, i32)) -> (selection: Selection)
    requires
        span(a.1, b.1) <= 0x1000,
    ensures
        selection.holds(box_positions(a, b)),
{
    let ghost all = box_positions(a, b);
    let nx: u64 = span_of(a.0, b.0);
    let ny: u64 = span_of(a.1, b.1);
    let nz: u64 = span_of(a.2, b.2);
    proof {
        assert(ny * nz <= 0x1000 * 0x1_0000_0000) by (nonlinear_arith)
            requires
                1 <= ny <= 0x1000,
                1 <= nz <= 0x1_0000_0000,
        ;
        let layer = ny * nz;
        assert(nx * layer <= 0x1_0000_0000 * (0x1000 * 0x1_0000_0000)) by (nonlinear_arith)
            requires
                1 <= nx <= 0x1_0000_0000,
                0 <= layer <= 0x1000 * 0x1_0000_0000,
        ;
        assert(nx * layer >= 0) by (nonlinear_arith)
            requires
                1 <= nx,
                0 <= layer,
        ;
        assert(0 <= layer) by (nonlinear_arith)
            requires
                layer == ny * nz,
        ;
    }
    let layer: u64 = ny * nz;
    let requested: u128 = nx as u128 * layer as u128;
    let count: u64 = if requested <= MAX_TICKED_BLOCKS as u128 {
        requested as u64
    } else {
        MAX_TICKED_BLOCKS as u64
    };
    let mut positions: Vec<BlockPos> = Vec::new();
    let mut k: u64 = 0;
    while k < count
        invariant
            k <= count,
            count <= box_volume(a, b),
            nx == span(a.0, b.0),
            ny == span(a.1, b.1),
            nz == span(a.2, b.2),
            1 <= ny,
            1 <= nz,
            layer == ny * nz,
            all == box_positions(a, b),
            positions@ == all.take(k as int),
        decreases count - k,
    {
        proof {
            lemma_box_pos(a, b, k as int);
        }
        let x: u64 = k / layer;
        let y: u64 = (k / nz) % ny;
        let z: u64 = k % nz;
        let pos = BlockPos {
            x: (lower_of(a.0, b.0) as i64 + x as i64) as i32,
            y: (lower_of(a.1, b.1) as i64 + y as i64) as i32,
            z: (lower_of(a.2, b.2) as i64 + z as i64) as i32,
        };
        positions.push(pos);
        k += 1;
        assert(positions@ =~= all.take(k as int));
    }
    assert(positions@ =~= first_ticked(all));
    Selection { positions, requested }
}

/// Reads a selection.
fn read_selection(r: &mut Reader<'_>) -> (res: Result<Selection, String>)
    requires
        old(r).wf(),
    ensures
        match (res, selection_at(old(r).data(), old(r).at())) {
            (Ok(selection), Ok(all)) => selection.holds(all),
            (Err(text), Err(why)) => text@ == why,
            _ => false,
        },
{
    let kind: u8 = match r.u8() {
        Ok(kind) => kind,
        Err(e) => return Err(e.to_string()),
    };
    if kind == 0 {
        let n: usize = match r.var_len("position set", MAX_COLLECTION) {
            Ok(n) => n,
            Err(e) => return Err(e.to_string()),
        };
        match select_sections(r, n) {
            Ok(selection) => Ok(selection),
            Err(e) => Err(e.to_string()),
        }
    } else if kind == 1 {
        let a: (i32, i32, i32) = match r.block_pos() {
            Ok(a) => a,
            Err(e) => return Err(e.to_string()),
        };
        let b: (i32, i32, i32) = match r.block_pos() {
            Ok(b) => b,
            Err(e) => return Err(e.to_string()),
        };
        Ok(select_box(a, b))
    } else {
        let mut out = String::new();
        out.append("unknown tick selection type: ");
        text::push_signed_decimal(&mut out, kind as i64);
        Err(out)
    }
}

/// The blocks that a request ticks.
pub struct TickBlocks {
    pub positions: Vec<BlockPos>,
    /// What the player is told whose selection was cut short.
    pub message: Option<String>,
}

/// `axiom:tick_blocks` — re-run block updates over a selection, which is what
/// settles fluids and attached blocks after a paste.
pub fn tick_blocks(body: &[u8], allowed: bool, dimension: &str) -> (res: Result<
    Option<TickBlocks>,
    String,
>)
    ensures
        match (res, tick_asked(body@, allowed, dimension@)) {
            (Ok(Some(done)), Ok(Some(all))) => {
                &&& done.positions@ == first_ticked(all)
                &&& match done.message {
                    Some(text) => all.len() > MAX_TICKED_BLOCKS && text@ == cut_short_text(
                        MAX_TICKED_BLOCKS as nat,
                        all.len(),
                    ),
                    None => all.len() <= MAX_TICKED_BLOCKS,
                }
            },
            (Ok(None), Ok(None)) => true,
            (Err(text), Err(why)) => text@ == why,
            _ => false,
        },
{
    let mut r = Reader::new(body);
    let wanted = match r.string() {
        Ok(wanted) => wanted,
        Err(e) => return Err(e.to_string()),
    };
    let selection = read_selection(&mut r)?;
    if !allowed || !handlers::same_dimension(dimension, wanted) {
        return Ok(None);
    }
    let ticked: usize = selection.positions.len();
    let message: Option<String> = if selection.requested > ticked as u128 {
        let mut out = String::new();
        out.append("Axiom: ticked the first ");
        text::push_decimal(&mut out, ticked as u128);
        out.append(" of ");
        text::push_decimal(&mut out, selection.requested);
        out.append(" blocks; the rest were skipped to keep the server responsive");
        Some(out)
    } else {
        None
    };
    Ok(Some(TickBlocks { positions: selection.positions, message }))
}

/// Whether a block with this state is written back as itself, which is what runs the
/// neighbour-update machinery. Air has nothing to update.
pub fn is_ticked(state: u16) -> (r: bool)
    ensures
        r == (state != 0),
{
    state != 0
}

/// Every block of a box is ticked once at most, and nothing else: each position is within the
/// corners, and no two are the same.
pub proof fn law_box_holds_its_blocks(
    a: (i32, i32, i32),
    b: (i32, i32, i32),
    i: int,
    j: int,
)
    requires
        0 <= i < j < box_volume(a, b),
    ensures
        box_pos(a, b, i) != box_pos(a, b, j),
        lower(a.0, b.0) <= box_pos(a, b, i).x < lower(a.0, b.0) + span(a.0, b.0),
        lower(a.1, b.1) <= box_pos(a, b, i).y < lower(a.1, b.1) + span(a.1, b.1),
        lower(a.2, b.2) <= box_pos(a, b, i).z < lower(a.2, b.2) + span(a.2, b.2),
{
    lemma_box_pos(a, b, i);
    lemma_box_pos(a, b, j);
    let ny = span(a.1, b.1) as int;
    let nz = span(a.2, b.2) as int;
    let layer = ny * nz;
    if i / layer == j / layer && (i / nz) % ny == (j / nz) % ny && i % nz == j % nz {
        vstd::arithmetic::div_mod::lemma_fundamental_div_mod(i, nz);
        vstd::arithmetic::div_mod::lemma_fundamental_div_mod(j, nz);
        vstd::arithmetic::div_mod::lemma_fundamental_div_mod(i / nz, ny);
        vstd::arithmetic::div_mod::lemma_fundamental_div_mod(j / nz, ny);
        vstd::arithmetic::div_mod::lemma_div_denominator(i, nz, ny);
        vstd::arithmetic::div_mod::lemma_div_denominator(j, nz, ny);
        assert(nz * ny == layer) by (nonlinear_arith)
            requires
                layer == ny * nz,
        ;
        assert(false);
    }
}

/// Where a block stands in its box.
pub open spec fn box_place(a: (i32, i32, i32), b: (i32, i32, i32), pos: BlockPos) -> int {
    let ny = span(a.1, b.1) as int;
    let nz = span(a.2, b.2) as int;
    ((pos.x - lower(a.0, b.0)) * ny + (pos.y - lower(a.1, b.1))) * nz + (pos.z - lower(a.2, b.2))
}

/// No block of a box is left out: every position within the corners is one of its blocks.
pub proof fn law_box_is_complete(a: (i32, i32, i32), b: (i32, i32, i32), pos: BlockPos)
    requires
        lower(a.0, b.0) <= pos.x < lower(a.0, b.0) + span(a.0, b.0),
        lower(a.1, b.1) <= pos.y < lower(a.1, b.1) + span(a.1, b.1),
        lower(a.2, b.2) <= pos.z < lower(a.2, b.2) + span(a.2, b.2),
    ensures
        0 <= box_place(a, b, pos) < box_volume(a, b),
        box_pos(a, b, box_place(a, b, pos)) == pos,
{
    let nx = span(a.0, b.0) as int;
    let ny = span(a.1, b.1) as int;
    let nz = span(a.2, b.2) as int;
    let x = pos.x - lower(a.0, b.0);
    let y = pos.y - lower(a.1, b.1);
    let z = pos.z - lower(a.2, b.2);
    let row = x * ny + y;
    let k = row * nz + z;
    assert(0 <= row <= nx * ny - 1) by (nonlinear_arith)
        requires
            0 <= x <= nx - 1,
            0 <= y <= ny - 1,
            row == x * ny + y,
    ;
    assert(0 <= k < (nx * ny) * nz) by (nonlinear_arith)
        requires
            0 <= row <= nx * ny - 1,
            0 <= z <= nz - 1,
            k == row * nz + z,
    ;
    assert((nx * ny) * nz == nx * (ny * nz)) by (nonlinear_arith);
    assert(row * nz == nz * row) by (nonlinear_arith);
    assert(x * ny == ny * x) by (nonlinear_arith);
    vstd::arithmetic::div_mod::lemma_fundamental_div_mod_converse(k, nz, row, z);
    vstd::arithmetic::div_mod::lemma_fundamental_div_mod_converse(row, ny, x, y);
    vstd::arithmetic::div_mod::lemma_div_denominator(k, nz, ny);
    assert(nz * ny == ny * nz) by (nonlinear_arith);
}

/// Whether bit `x` of a mask is set, the lowest counting as none.
pub open spec fn set_in(mask: nat, x: int) -> bool
    decreases x,
{
    if x <= 0 {
        mask % 2 == 1
    } else {
        set_in(mask / 2, x - 1)
    }
}

/// How many of the lowest `n` bits of a mask are set.
pub open spec fn set_below(mask: nat, n: int) -> int
    decreases n,
{
    if n <= 0 {
        0
    } else {
        set_below(mask, n - 1) + if set_in(mask, n - 1) {
            1int
        } else {
            0int
        }
    }
}

proof fn lemma_set_below(mask: nat, n: int)
    requires
        0 < n,
    ensures
        set_below(mask, n) == set_below(mask / 2, n - 1) + if mask % 2 == 1 {
            1int
        } else {
            0int
        },
    decreases n,
{
    reveal_with_fuel(set_below, 2);
    if n > 1 {
        lemma_set_below(mask, n - 1);
    }
}

proof fn lemma_set_grows(mask: nat, a: int, b: int)
    requires
        0 <= a <= b,
    ensures
        set_below(mask, a) <= set_below(mask, b),
    decreases b - a,
{
    if a < b {
        lemma_set_grows(mask, a, b - 1);
    }
}

proof fn lemma_row_selects(place: (i32, i32, i32), row: int, mask: nat, from: int, x: int)
    requires
        0 <= from <= x < 16,
    ensures
        ({
            let out = row_positions(place, row, mask, from);
            let k = set_below(mask, x - from);
            &&& out.len() == set_below(mask, 16 - from)
            &&& set_in(mask, x - from) ==> {
                &&& 0 <= k < out.len()
                &&& out[k] == (BlockPos {
                    x: (16 * place.0 + x) as i32,
                    y: (16 * place.1 + row % 16) as i32,
                    z: (16 * place.2 + row / 16) as i32,
                })
            }
        }),
    decreases 16 - from,
{
    let out = row_positions(place, row, mask, from);
    let rest = row_positions(place, row, mask / 2, from + 1);
    lemma_set_below(mask, 16 - from);
    lemma_set_grows(mask, 0, 16 - from);
    if from + 1 < 16 {
        let next = if x > from { x } else { from + 1 };
        lemma_row_selects(place, row, mask / 2, from + 1, next);
        lemma_set_grows(mask / 2, 0, 15 - from);
        if x > from {
            lemma_set_below(mask, x - from);
            lemma_set_grows(mask / 2, 0, x - from - 1);
            if mask % 2 == 1 && set_in(mask, x - from) {
                let k = set_below(mask / 2, x - from - 1);
                assert(out[k + 1] == rest[k]);
            }
        }
    } else {
        assert(rest =~= Seq::empty());
        reveal_with_fuel(set_below, 2);
    }
}

/// A row of a section selects the blocks whose bits are set, and nothing else: as many as there
/// are such bits, from the lowest on, each at its own place. Rows go by Y first, then Z.
pub proof fn law_row_selects_what_is_set(place: (i32, i32, i32), row: int, mask: nat, x: int)
    requires
        0 <= x < 16,
    ensures
        ({
            let out = row_positions(place, row, mask, 0);
            let k = set_below(mask, x);
            &&& out.len() == set_below(mask, 16)
            &&& set_in(mask, x) ==> {
                &&& 0 <= k < out.len()
                &&& out[k] == (BlockPos {
                    x: (16 * place.0 + x) as i32,
                    y: (16 * place.1 + row % 16) as i32,
                    z: (16 * place.2 + row / 16) as i32,
                })
            }
        }),
{
    lemma_row_selects(place, row, mask, 0, x);
}

/// Masks as they follow each other on the wire.
pub open spec fn masks_bytes(masks: Seq<u16>) -> Seq<u8>
    decreases masks.len(),
{
    if masks.len() == 0 {
        Seq::empty()
    } else {
        wire::to_be(masks[0] as nat, 2) + masks_bytes(masks.skip(1))
    }
}

/// The blocks of rows that follow each other, the first of them being row `row`.
pub open spec fn rows_selected(place: (i32, i32, i32), masks: Seq<u16>, row: int) -> Seq<BlockPos>
    decreases masks.len(),
{
    if masks.len() == 0 {
        Seq::empty()
    } else {
        row_positions(place, row, masks[0] as nat, 0) + rows_selected(place, masks.skip(1), row + 1)
    }
}

proof fn lemma_rows_back(d: Seq<u8>, p: int, place: (i32, i32, i32), masks: Seq<u16>, row: int)
    requires
        0 <= row,
        row + masks.len() == 256,
        wire::stands(d, p, masks_bytes(masks)),
    ensures
        rows_at(d, p, place, row) == (
            Ok::<Seq<BlockPos>, Error>(rows_selected(place, masks, row)),
            p + 2 * masks.len(),
        ),
    decreases masks.len(),
{
    if masks.len() > 0 {
        let rest = masks.skip(1);
        wire::lemma_to_be_len(masks[0] as nat, 2);
        wire::lemma_stands_split(d, p, wire::to_be(masks[0] as nat, 2), masks_bytes(rest));
        wire::law_u16_round_trip(d, p, masks[0]);
        lemma_rows_back(d, p + 2, place, rest, row + 1);
    }
}

/// A section of a selection is its place and 256 rows, all of which are selected from, in their
/// order; the sections behind it follow.
pub proof fn law_section_of_a_selection_is_read(
    d: Seq<u8>,
    p: int,
    place: (i32, i32, i32),
    masks: Seq<u16>,
    n: nat,
)
    requires
        masks.len() == 256,
        -0x200_0000 <= place.0 < 0x200_0000,
        -0x800 <= place.1 < 0x800,
        -0x200_0000 <= place.2 < 0x200_0000,
        wire::laid(
            d,
            p,
            seq![wire::block_pos_bytes(place.0, place.1, place.2), masks_bytes(masks)],
        ),
    ensures
        sections_at(d, p, n + 1) == wire::after(
            rows_selected(place, masks, 0),
            sections_at(d, p + 520, n),
        ),
        sections_at(d, p, 0) == (Ok::<Seq<BlockPos>, Error>(Seq::empty()), p),
{
    reveal_with_fuel(wire::laid, 3);
    wire::law_i64_round_trip(d, p, wire::packed(place.0, place.1, place.2));
    wire::law_unpack_pack(place.0, place.1, place.2);
    lemma_rows_back(d, p + 8, place, masks, 0);
}

/// Whether a number lies between two others, whichever of them is the lower.
pub open spec fn between(n: i32, a: i32, b: i32) -> bool {
    a <= n <= b || b <= n <= a
}

/// A selection by two corners holds the positions that lie between them along every axis, and no
/// others, each of them once.
pub proof fn law_box_is_what_lies_between(
    a: (i32, i32, i32),
    b: (i32, i32, i32),
    pos: BlockPos,
    i: int,
    j: int,
)
    ensures
        box_positions(a, b).contains(pos) <==> between(pos.x, a.0, b.0) && between(
            pos.y,
            a.1,
            b.1,
        ) && between(pos.z, a.2, b.2),
        0 <= i < j < box_positions(a, b).len() ==> box_positions(a, b)[i] != box_positions(a, b)[j],
{
    let all = box_positions(a, b);
    if between(pos.x, a.0, b.0) && between(pos.y, a.1, b.1) && between(pos.z, a.2, b.2) {
        law_box_is_complete(a, b, pos);
        assert(all[box_place(a, b, pos)] == pos);
    }
    if all.contains(pos) {
        let k = choose|k: int| 0 <= k < all.len() && all[k] == pos;
        lemma_box_pos(a, b, k);
        assert(pos == box_pos(a, b, k));
    }
    if 0 <= i < j < all.len() {
        law_box_holds_its_blocks(a, b, i, j);
    }
}

/// A packet with two corners ticks what lies between them, and one with sections what they
/// select, for who may and is in the dimension it names; for others nothing.
pub proof fn law_tick_request_is_read(
    body: Seq<u8>,
    named: Seq<char>,
    a: (i32, i32, i32),
    b: (i32, i32, i32),
    n: nat,
    allowed: bool,
    dimension: Seq<char>,
)
    requires
        vstd::utf8::encode_utf8(named).len() <= wire::MAX_STRING_BYTES,
        n <= 1024,
    ensures
        ({
            let asked = tick_asked(body, allowed, dimension);
            let p = wire::string_bytes(named).len() + 1;
            let acts = allowed && handlers::bare(dimension) == handlers::bare(named);
            &&& wire::laid(
                body,
                0,
                seq![
                    wire::string_bytes(named),
                    seq![1u8],
                    wire::i64_bytes(wire::packed(a.0, a.1, a.2)),
                    wire::i64_bytes(wire::packed(b.0, b.1, b.2)),
                ],
            ) ==> {
                let corners = (
                    wire::unpacked(wire::packed(a.0, a.1, a.2)),
                    wire::unpacked(wire::packed(b.0, b.1, b.2)),
                );
                asked == Ok::<Option<Seq<BlockPos>>, Seq<char>>(
                    if acts {
                        Some(box_positions(corners.0, corners.1))
                    } else {
                        None
                    },
                )
            }
            &&& wire::laid(
                body,
                0,
                seq![wire::string_bytes(named), seq![0u8], wire::len_bytes(n)],
            ) ==> match sections_at(body, (p + wire::len_bytes(n).len()) as int, n).0 {
                Ok(all) => asked == Ok::<Option<Seq<BlockPos>>, Seq<char>>(
                    if acts {
                        Some(all)
                    } else {
                        None
                    },
                ),
                Err(e) => asked == Err::<Option<Seq<BlockPos>>, Seq<char>>(buf::error_text(e)),
            }
        }),
{
    let s = wire::string_bytes(named);
    let one = seq![
        s,
        seq![1u8],
        wire::i64_bytes(wire::packed(a.0, a.1, a.2)),
        wire::i64_bytes(wire::packed(b.0, b.1, b.2)),
    ];
    let zero = seq![s, seq![0u8], wire::len_bytes(n)];
    reveal_with_fuel(wire::laid, 5);
    if wire::laid(body, 0, one) {
        wire::law_string_round_trip(body, 0, named);
        wire::law_u8_round_trip(body, s.len() as int, 1);
        wire::law_i64_round_trip(body, s.len() as int + 1, wire::packed(a.0, a.1, a.2));
        wire::law_i64_round_trip(body, s.len() as int + 9, wire::packed(b.0, b.1, b.2));
    }
    if wire::laid(body, 0, zero) {
        wire::law_string_round_trip(body, 0, named);
        wire::law_u8_round_trip(body, s.len() as int, 0);
        wire::law_var_len_round_trip(body, s.len() as int + 1, n, "position set", 1024);
    }
}

/// A selection of up to 65536 blocks is ticked whole, and of a larger one the first 65536.
pub proof fn law_first_blocks_are_ticked(positions: Seq<BlockPos>, i: int)
    ensures
        first_ticked(positions).len() <= 65536,
        positions.len() <= 65536 ==> first_ticked(positions) == positions,
        positions.len() > 65536 ==> first_ticked(positions).len() == 65536,
        0 <= i < first_ticked(positions).len() ==> first_ticked(positions)[i] == positions[i],
{
}

/// A player whose selection is cut short is told how much of it was ticked.
pub proof fn law_cut_selection_is_told(ticked: nat, requested: nat)
    ensures
        cut_short_text(ticked, requested) == "Axiom: ticked the first "@ + text::decimal(ticked)
            + " of "@ + text::decimal(requested)
            + " blocks; the rest were skipped to keep the server responsive"@,
{
}

/// A selection is of sections or of a box; any other is refused by its number.
pub proof fn law_other_selections_are_refused(d: Seq<u8>, p: int, kind: u8)
    requires
        wire::stands(d, p, seq![kind]),
        kind > 1,
    ensures
        selection_at(d, p) == Err::<Seq<BlockPos>, Seq<char>>(
            "unknown tick selection type: "@ + text::signed_decimal(kind as int),
        ),
{
    wire::law_u8_round_trip(d, p, kind);
}

} // verus!
