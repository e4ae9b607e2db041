//! Laws of packets that are cut short: what comes of them is what comes of the whole packet, where
//! all of it that matters is there, and else that the buffer has ended.

use vstd::prelude::*;
use vstd::string::*;

use crate::annotations;
use crate::buf;
use crate::buf::Error;
use crate::chunks;
use crate::edits;
use crate::entities;
use crate::fields;
use crate::fields::Part;
use crate::handlers;
use crate::handlers::GameModeGrants;
use crate::nbt;
use crate::palette;
use crate::proto;
use crate::ticking;
use crate::wire;
use crate::wire_laws;
use crate::wire_laws::cut_alike;

verus! {

/// Whether a cut packet comes to what the whole packet comes to, or is refused as cut short.
pub open spec fn cut_or_same<T>(whole: Result<T, Seq<char>>, cut: Result<T, Seq<char>>) -> bool {
    whole is Ok ==> cut == whole || cut == Err::<T, Seq<char>>("unexpected end of buffer"@)
}

proof fn lemma_cut_i64(d: Seq<u8>, p: int, n: int)
    requires
        0 <= p <= n <= d.len(),
    ensures
        cut_alike(wire::read_i64(d, p), wire::read_i64(d.take(n), p), n),
        wire::read_i64(d, p).0 is Ok ==> wire::read_i64(d, p).1 == p + 8,
{
    wire_laws::law_cut_numbers(d, p, n);
}

/// A game mode, a fly speed and a switch for pressure plates are whole or refused.
pub proof fn law_cut_controls(body: Seq<u8>, grants: GameModeGrants, allowed: bool, n: int)
    requires
        0 <= n <= body.len(),
    ensures
        cut_or_same(
            handlers::gamemode_asked(body, grants),
            handlers::gamemode_asked(body.take(n), grants),
        ),
        cut_or_same(
            handlers::fly_speed_asked(body, allowed),
            handlers::fly_speed_asked(body.take(n), allowed),
        ),
        cut_or_same(
            handlers::no_physical_trigger_asked(body, allowed),
            handlers::no_physical_trigger_asked(body.take(n), allowed),
        ),
{
    wire_laws::law_cut_numbers(body, 0, n);
}

proof fn lemma_cut_u64(d: Seq<u8>, p: int, n: int)
    requires
        0 <= p <= n <= d.len(),
    ensures
        cut_alike(wire::read_u64(d, p), wire::read_u64(d.take(n), p), n),
        wire::read_u64(d, p).0 is Ok ==> wire::read_u64(d, p).1 == p + 8,
{
    wire_laws::law_cut_numbers(d, p, n);
}

proof fn lemma_cut_u32(d: Seq<u8>, p: int, n: int)
    requires
        0 <= p <= n <= d.len(),
    ensures
        cut_alike(wire::read_u32(d, p), wire::read_u32(d.take(n), p), n),
        wire::read_u32(d, p).0 is Ok ==> wire::read_u32(d, p).1 == p + 4,
{
    wire_laws::law_cut_numbers(d, p, n);
}

/// A teleport is whole or refused.
pub proof fn law_cut_teleport(body: Seq<u8>, allowed: bool, dimensions: Seq<String>, n: int)
    requires
        0 <= n <= body.len(),
    ensures
        cut_or_same(
            handlers::teleport_asked(body, allowed, dimensions),
            handlers::teleport_asked(body.take(n), allowed, dimensions),
        ),
{
    lemma_cut_string(body, 0, n);
    let q = wire::read_string(body, 0).1;
    if 0 <= q <= n {
        lemma_cut_u64(body, q, n);
    }
    if 0 <= q + 8 <= n {
        lemma_cut_u64(body, q + 8, n);
    }
    if 0 <= q + 16 <= n {
        lemma_cut_u64(body, q + 16, n);
    }
    if 0 <= q + 24 <= n {
        lemma_cut_u32(body, q + 24, n);
    }
    if 0 <= q + 28 <= n {
        lemma_cut_u32(body, q + 28, n);
    }
    lemma_string_forward(body, 0);
}

proof fn lemma_cut_string(d: Seq<u8>, p: int, n: int)
    requires
        0 <= p <= n <= d.len(),
    ensures
        cut_alike(wire::read_string(d, p), wire::read_string(d.take(n), p), n),
{
    wire_laws::law_cut_fields(d, p, "string", 0, n);
}

proof fn lemma_string_forward(d: Seq<u8>, p: int)
    ensures
        wire::read_string(d, p).0 is Ok ==> wire::read_string(d, p).1 >= p,
{
    wire_laws::lemma_groups_forward(d, p, 5);
}

proof fn lemma_var_forward(d: Seq<u8>, p: int)
    ensures
        wire::read_var_i32(d, p).1 >= p,
{
    wire_laws::lemma_groups_forward(d, p, 5);
}

/// A change of a world's time is whole or refused.
pub proof fn law_cut_world_time(body: Seq<u8>, allowed: bool, dimension: Seq<char>, n: int)
    requires
        0 <= n <= body.len(),
    ensures
        cut_or_same(
            handlers::world_time_asked(body, allowed, dimension),
            handlers::world_time_asked(body.take(n), allowed, dimension),
        ),
{
    wire_laws::law_cut_fields(body, 0, "string", 0, n);
    lemma_string_forward(body, 0);
    let q = wire::read_string(body, 0).1;
    if 0 <= q <= n {
        wire_laws::law_cut_numbers(body, q, n);
        if q + 1 <= n {
            wire_laws::law_cut_numbers(body, q + 1, n);
            if q + 2 <= n {
                wire_laws::law_cut_numbers(body, q + 2, n);
            }
        }
        if q + 5 <= n {
            wire_laws::law_cut_numbers(body, q + 5, n);
            if q + 6 <= n {
                wire_laws::law_cut_numbers(body, q + 6, n);
            }
        }
    }
}

proof fn lemma_cut_uuids(d: Seq<u8>, p: int, count: nat, n: int)
    requires
        0 <= p <= n <= d.len(),
    ensures
        cut_alike(
            entities::read_uuids_at(d, p, count),
            entities::read_uuids_at(d.take(n), p, count),
            n,
        ),
        entities::read_uuids_at(d, p, count).0 is Ok ==> entities::read_uuids_at(d, p, count).1
            == p + 16 * count,
    decreases count,
{
    if count > 0 {
        wire_laws::law_cut_numbers(d, p, n);
        if p + 16 <= n {
            lemma_cut_uuids(d, p + 16, (count - 1) as nat, n);
        } else {
            lemma_uuids_len(d, p, count);
        }
    }
}

proof fn lemma_uuids_len(d: Seq<u8>, p: int, count: nat)
    ensures
        entities::read_uuids_at(d, p, count).0 is Ok ==> entities::read_uuids_at(d, p, count).1
            == p + 16 * count,
    decreases count,
{
    if count > 0 {
        lemma_uuids_len(d, p + 16, (count - 1) as nat);
    }
}

/// A deletion and a request for the data of entities are whole or refused.
pub proof fn law_cut_entity_requests(body: Seq<u8>, allowed: bool, n: int)
    requires
        0 <= n <= body.len(),
    ensures
        cut_or_same(
            entities::delete_asked(body, allowed),
            entities::delete_asked(body.take(n), allowed),
        ),
        cut_or_same(
            entities::entity_data_asked(body, allowed),
            entities::entity_data_asked(body.take(n), allowed),
        ),
{
    lemma_cut_uuid_list(body, 0, n);
    lemma_cut_i64(body, 0, n);
    if 8 <= n {
        lemma_cut_uuid_list(body, 8, n);
    }
}

proof fn lemma_cut_uuid_list(d: Seq<u8>, p: int, n: int)
    requires
        0 <= p <= n <= d.len(),
    ensures
        cut_alike(
            entities::read_uuid_list_at(d, p),
            entities::read_uuid_list_at(d.take(n), p),
            n,
        ),
{
    wire_laws::law_cut_fields(d, p, "uuid list", handlers::MAX_COLLECTION, n);
    lemma_var_forward(d, p);
    let (len, q) = wire::read_var_len(d, p, "uuid list", handlers::MAX_COLLECTION);
    if len is Ok {
        if q <= n {
            lemma_cut_uuids(d, q, len->Ok_0 as nat, n);
        } else {
            lemma_uuids_len(d, q, len->Ok_0 as nat);
        }
    }
}

proof fn lemma_keys_len(d: Seq<u8>, p: int, count: nat)
    ensures
        chunks::read_keys_at(d, p, count).0 is Ok ==> chunks::read_keys_at(d, p, count).1 == p + 8
            * count,
    decreases count,
{
    if count > 0 {
        lemma_keys_len(d, p + 8, (count - 1) as nat);
    }
}

proof fn lemma_cut_keys(d: Seq<u8>, p: int, count: nat, n: int)
    requires
        0 <= p <= n <= d.len(),
    ensures
        cut_alike(chunks::read_keys_at(d, p, count), chunks::read_keys_at(d.take(n), p, count), n),
    decreases count,
{
    lemma_keys_len(d, p, count);
    if count > 0 {
        lemma_cut_i64(d, p, n);
        if p + 8 <= n {
            lemma_cut_keys(d, p + 8, (count - 1) as nat, n);
            lemma_keys_len(d, p + 8, (count - 1) as nat);
        }
    }
}

proof fn lemma_cut_key_list(d: Seq<u8>, p: int, what: &'static str, n: int)
    requires
        0 <= p <= n <= d.len(),
    ensures
        cut_alike(
            chunks::read_key_list_at(d, p, what),
            chunks::read_key_list_at(d.take(n), p, what),
            n,
        ),
        chunks::read_key_list_at(d, p, what).0 is Ok ==> chunks::read_key_list_at(d, p, what).1
            >= p,
{
    wire_laws::law_cut_fields(d, p, what, handlers::MAX_COLLECTION, n);
    lemma_var_forward(d, p);
    let (len, q) = wire::read_var_len(d, p, what, handlers::MAX_COLLECTION);
    if len is Ok {
        lemma_keys_len(d, q, len->Ok_0 as nat);
        if q <= n {
            lemma_cut_keys(d, q, len->Ok_0 as nat, n);
        }
    }
}

/// A request for chunk data is whole or refused.
pub proof fn law_cut_chunk_request(
    body: Seq<u8>,
    allowed: bool,
    entities_allowed: bool,
    dimension: Seq<char>,
    n: int,
)
    requires
        0 <= n <= body.len(),
    ensures
        cut_or_same(
            chunks::chunks_asked(body, allowed, entities_allowed, dimension),
            chunks::chunks_asked(body.take(n), allowed, entities_allowed, dimension),
        ),
{
    lemma_cut_i64(body, 0, n);
    if 8 <= n {
        wire_laws::law_cut_fields(body, 8, "string", 0, n);
        lemma_string_forward(body, 8);
        let q2 = wire::read_string(body, 8).1;
        if 8 <= q2 <= n {
            wire_laws::law_cut_numbers(body, q2, n);
            let q3 = q2 + 1;
            if q3 <= n {
                lemma_cut_key_list(body, q3, "block entity list", n);
                let q4 = chunks::read_key_list_at(body, q3, "block entity list").1;
                if 0 <= q4 <= n {
                    lemma_cut_key_list(body, q4, "section list", n);
                }
            }
        }
    }
}

proof fn lemma_positions_len(d: Seq<u8>, p: int, count: nat)
    ensures
        edits::read_positions_at(d, p, count).0 is Ok ==> edits::read_positions_at(d, p, count).1
            == p + 8 * count,
    decreases count,
{
    if count > 0 {
        lemma_positions_len(d, p + 8, (count - 1) as nat);
    }
}

proof fn lemma_cut_positions(d: Seq<u8>, p: int, count: nat, n: int)
    requires
        0 <= p <= n <= d.len(),
    ensures
        cut_alike(
            edits::read_positions_at(d, p, count),
            edits::read_positions_at(d.take(n), p, count),
            n,
        ),
    decreases count,
{
    lemma_positions_len(d, p, count);
    if count > 0 {
        wire_laws::law_cut_numbers(d, p, n);
        if p + 8 <= n {
            lemma_cut_positions(d, p + 8, (count - 1) as nat, n);
            lemma_positions_len(d, p + 8, (count - 1) as nat);
        }
    }
}

proof fn lemma_blocks_forward(d: Seq<u8>, p: int, count: nat)
    ensures
        edits::read_blocks_at(d, p, count).0 is Ok ==> edits::read_blocks_at(d, p, count).1 >= p,
    decreases count,
{
    if count > 0 {
        lemma_var_forward(d, p + 8);
        lemma_blocks_forward(d, wire::read_var_i32(d, p + 8).1, (count - 1) as nat);
    }
}

proof fn lemma_cut_blocks(d: Seq<u8>, p: int, count: nat, n: int)
    requires
        0 <= p <= n <= d.len(),
    ensures
        cut_alike(
            edits::read_blocks_at(d, p, count),
            edits::read_blocks_at(d.take(n), p, count),
            n,
        ),
    decreases count,
{
    if count > 0 {
        wire_laws::law_cut_numbers(d, p, n);
        lemma_var_forward(d, p + 8);
        let q = wire::read_var_i32(d, p + 8).1;
        lemma_blocks_forward(d, q, (count - 1) as nat);
        if p + 8 <= n {
            wire_laws::law_cut_fields(d, p + 8, "string", 0, n);
            if q <= n {
                lemma_cut_blocks(d, q, (count - 1) as nat, n);
            }
        }
    }
}

proof fn lemma_part_forward(d: Seq<u8>, p: int, part: Part)
    ensures
        fields::past_part(d, p, part).0 is Ok ==> fields::past_part(d, p, part).1 >= p,
{
    wire_laws::lemma_groups_forward(d, p, 5);
}

proof fn lemma_cut_part(d: Seq<u8>, p: int, part: Part, n: int)
    requires
        0 <= p <= n <= d.len(),
    ensures
        cut_alike(fields::past_part(d, p, part), fields::past_part(d.take(n), p, part), n),
{
    match part {
        Part::Var => wire_laws::law_cut_fields(d, p, "string", 0, n),
        Part::Raw(len) => wire_laws::law_cut_bytes(d, p, len as int, n),
        Part::Text => wire_laws::law_cut_fields(d, p, "string", 0, n),
        Part::Bytes(max) => wire_laws::law_cut_fields(d, p, "byte array", max, n),
        Part::Items(what, max) => {
            wire_laws::law_cut_fields(d, p, what, max, n);
            let (len, q) = wire::read_var_len(d, p, what, max);
            if len is Ok && q <= n {
                lemma_var_forward(d, p);
                wire_laws::law_cut_bytes(d, q, len->Ok_0 * 8, n);
            }
        },
    }
}

proof fn lemma_parts_forward(d: Seq<u8>, p: int, parts: Seq<Part>)
    ensures
        fields::past_parts(d, p, parts).0 is Ok ==> fields::past_parts(d, p, parts).1 >= p,
    decreases parts.len(),
{
    if parts.len() > 0 {
        lemma_part_forward(d, p, parts[0]);
        lemma_parts_forward(d, fields::past_part(d, p, parts[0]).1, parts.skip(1));
    }
}

proof fn lemma_cut_parts(d: Seq<u8>, p: int, parts: Seq<Part>, n: int)
    requires
        0 <= p <= n <= d.len(),
    ensures
        cut_alike(fields::past_parts(d, p, parts), fields::past_parts(d.take(n), p, parts), n),
    decreases parts.len(),
{
    if parts.len() > 0 {
        lemma_part_forward(d, p, parts[0]);
        lemma_cut_part(d, p, parts[0], n);
        let q = fields::past_part(d, p, parts[0]).1;
        lemma_parts_forward(d, q, parts.skip(1));
        if p <= q <= n {
            lemma_cut_parts(d, q, parts.skip(1), n);
        }
    }
}

/// A packet of placements is whole or refused.
pub proof fn law_cut_placements(body: Seq<u8>, n: int)
    requires
        0 <= n <= body.len(),
        edits::placements_in(body) is Ok,
    ensures
        edits::placements_in(body.take(n)) == edits::placements_in(body) || edits::placements_in(
            body.take(n),
        ) == Err::<edits::PlacementsView, Error>(Error::Eof),
{
    let max = handlers::MAX_COLLECTION;
    wire_laws::law_cut_fields(body, 0, "block map", max, n);
    lemma_var_forward(body, 0);
    let (count, q) = wire::read_var_len(body, 0, "block map", max);
    if q <= n {
        lemma_cut_blocks(body, q, count->Ok_0 as nat, n);
        lemma_blocks_forward(body, q, count->Ok_0 as nat);
        let q2 = edits::read_blocks_at(body, q, count->Ok_0 as nat).1;
        if q2 <= n {
            wire_laws::law_cut_numbers(body, q2, n);
            let (updates, q3) = wire::read_bool(body, q2);
            if q3 <= n {
                lemma_cut_protected(body, q3, updates->Ok_0, n);
                let q4 = edits::read_protected_at(body, q3, updates->Ok_0).1;
                if q4 <= n {
                    lemma_cut_parts(body, q4, edits::click(), n);
                    lemma_parts_forward(body, q4, edits::click());
                    let q5 = fields::past_parts(body, q4, edits::click()).1;
                    if q5 <= n {
                        wire_laws::law_cut_fields(body, q5, "string", 0, n);
                    }
                }
            }
        }
    }
}

proof fn lemma_cut_protected(d: Seq<u8>, p: int, updates: bool, n: int)
    requires
        0 <= p <= n <= d.len(),
    ensures
        cut_alike(
            edits::read_protected_at(d, p, updates),
            edits::read_protected_at(d.take(n), p, updates),
            n,
        ),
        edits::read_protected_at(d, p, updates).0 is Ok ==> edits::read_protected_at(
            d,
            p,
            updates,
        ).1 >= p,
{
    let what = "prevent-updates set";
    wire_laws::law_cut_fields(d, p, what, handlers::MAX_COLLECTION, n);
    lemma_var_forward(d, p);
    let (len, q) = wire::read_var_len(d, p, what, handlers::MAX_COLLECTION);
    if updates && len is Ok {
        lemma_positions_len(d, q, len->Ok_0 as nat);
        if q <= n {
            lemma_cut_positions(d, q, len->Ok_0 as nat, n);
        }
    }
}

/// What parts behind one byte span, with the byte.
spec fn spanned(d: Seq<u8>, p: int, parts: Seq<Part>) -> (Result<Seq<u8>, Error>, int) {
    match fields::past_parts(d, p + 1, parts) {
        (Ok(()), q) => (Ok(d.subrange(p, q)), q),
        (Err(e), q) => (Err(e), q),
    }
}

proof fn lemma_cut_span(d: Seq<u8>, p: int, parts: Seq<Part>, n: int)
    requires
        0 <= p < n <= d.len(),
    ensures
        cut_alike(spanned(d, p, parts), spanned(d.take(n), p, parts), n),
{
    lemma_parts_forward(d, p + 1, parts);
    lemma_cut_parts(d, p + 1, parts, n);
    let (whole, q) = fields::past_parts(d, p + 1, parts);
    if whole is Ok && q <= n {
        assert(d.take(n).subrange(p, q) =~= d.subrange(p, q));
    }
}

proof fn lemma_spanned(d: Seq<u8>, p: int, kind: u8, parts: Seq<Part>)
    requires
        0 <= p < d.len(),
        d[p] == kind,
        annotations::layout(kind) == Some(parts),
    ensures
        annotations::body_at(d, p) == spanned(d, p, parts),
        annotations::body_at(d, p).0 is Ok ==> annotations::body_at(d, p).1 > p,
{
    lemma_parts_forward(d, p + 1, parts);
}

/// An annotation is whole or refused.
pub proof fn law_cut_annotation(d: Seq<u8>, p: int, n: int)
    requires
        0 <= p <= n <= d.len(),
    ensures
        cut_alike(annotations::body_at(d, p), annotations::body_at(d.take(n), p), n),
{
    if p < d.len() {
        if let Some(parts) = annotations::layout(d[p]) {
            lemma_spanned(d, p, d[p], parts);
            if p < n {
                assert(d.take(n)[p] == d[p]);
                lemma_spanned(d.take(n), p, d[p], parts);
                lemma_cut_span(d, p, parts, n);
            }
        }
    }
}

proof fn lemma_rows_len(d: Seq<u8>, p: int, place: (i32, i32, i32), row: int)
    requires
        row <= 256,
    ensures
        ticking::rows_at(d, p, place, row).0 is Ok ==> ticking::rows_at(d, p, place, row).1 == p + 2
            * (256 - row),
    decreases 256 - row,
{
    if row < 256 {
        lemma_rows_len(d, p + 2, place, row + 1);
    }
}

proof fn lemma_cut_rows(d: Seq<u8>, p: int, place: (i32, i32, i32), row: int, n: int)
    requires
        0 <= p <= n <= d.len(),
        row <= 256,
    ensures
        cut_alike(
            ticking::rows_at(d, p, place, row),
            ticking::rows_at(d.take(n), p, place, row),
            n,
        ),
    decreases 256 - row,
{
    lemma_rows_len(d, p, place, row);
    if row < 256 {
        wire_laws::law_cut_numbers(d, p, n);
        lemma_rows_len(d, p + 2, place, row + 1);
        if p + 2 <= n {
            lemma_cut_rows(d, p + 2, place, row + 1, n);
        }
    }
}

proof fn lemma_sections_len(d: Seq<u8>, p: int, count: nat)
    ensures
        ticking::sections_at(d, p, count).0 is Ok ==> ticking::sections_at(d, p, count).1 == p + 520
            * count,
    decreases count,
{
    if count > 0 {
        let key = wire::read_i64(d, p).0;
        if key is Ok {
            lemma_rows_len(d, p + 8, wire::unpacked(key->Ok_0), 0);
        }
        lemma_sections_len(d, p + 520, (count - 1) as nat);
    }
}

proof fn lemma_cut_sections(d: Seq<u8>, p: int, count: nat, n: int)
    requires
        0 <= p <= n <= d.len(),
    ensures
        cut_alike(
            ticking::sections_at(d, p, count),
            ticking::sections_at(d.take(n), p, count),
            n,
        ),
    decreases count,
{
    lemma_sections_len(d, p, count);
    if count > 0 {
        lemma_cut_i64(d, p, n);
        let key = wire::read_i64(d, p).0;
        if key is Ok && p + 8 <= n {
            let place = wire::unpacked(key->Ok_0);
            lemma_rows_len(d, p + 8, place, 0);
            lemma_cut_rows(d, p + 8, place, 0, n);
            lemma_sections_len(d, p + 520, (count - 1) as nat);
            if p + 520 <= n {
                lemma_cut_sections(d, p + 520, (count - 1) as nat, n);
            }
        }
    }
}

proof fn lemma_cut_section_list(d: Seq<u8>, p: int, n: int)
    requires
        0 <= p < n <= d.len(),
        d[p] == 0,
    ensures
        cut_or_same(ticking::selection_at(d, p), ticking::selection_at(d.take(n), p)),
{
    let max = handlers::MAX_COLLECTION;
    assert(d.take(n)[p] == 0);
    wire_laws::law_cut_fields(d, p + 1, "position set", max, n);
    lemma_var_forward(d, p + 1);
    let (len, q) = wire::read_var_len(d, p + 1, "position set", max);
    if len is Ok && q <= n {
        lemma_cut_sections(d, q, len->Ok_0 as nat, n);
    }
}

proof fn lemma_cut_box(d: Seq<u8>, p: int, n: int)
    requires
        0 <= p < n <= d.len(),
        d[p] == 1,
    ensures
        cut_or_same(ticking::selection_at(d, p), ticking::selection_at(d.take(n), p)),
{
    assert(d.take(n)[p] == 1);
    lemma_cut_pos(d, p + 1, n);
    if p + 9 <= n {
        lemma_cut_pos(d, p + 9, n);
    }
}

proof fn lemma_cut_pos(d: Seq<u8>, p: int, n: int)
    requires
        0 <= p <= n <= d.len(),
    ensures
        cut_alike(wire::read_block_pos(d, p), wire::read_block_pos(d.take(n), p), n),
        wire::read_block_pos(d, p).0 is Ok ==> wire::read_block_pos(d, p).1 == p + 8,
{
    wire_laws::law_cut_numbers(d, p, n);
}

proof fn lemma_cut_selection(d: Seq<u8>, p: int, n: int)
    requires
        0 <= p <= n <= d.len(),
    ensures
        cut_or_same(ticking::selection_at(d, p), ticking::selection_at(d.take(n), p)),
{
    if p < n {
        if d[p] == 0 {
            lemma_cut_section_list(d, p, n);
        } else if d[p] == 1 {
            lemma_cut_box(d, p, n);
        }
    }
}

/// A selection of blocks to tick is whole or refused.
pub proof fn law_cut_tick_request(body: Seq<u8>, allowed: bool, dimension: Seq<char>, n: int)
    requires
        0 <= n <= body.len(),
    ensures
        cut_or_same(
            ticking::tick_asked(body, allowed, dimension),
            ticking::tick_asked(body.take(n), allowed, dimension),
        ),
{
    wire_laws::law_cut_fields(body, 0, "string", 0, n);
    lemma_string_forward(body, 0);
    let q = wire::read_string(body, 0).1;
    if 0 <= q <= n {
        lemma_cut_selection(body, q, n);
    }
}

/// A hello that is cut before its token ends is refused, and one that is cut behind it says the
/// same.
pub proof fn law_cut_hello(body: Seq<u8>, n: int)
    requires
        0 <= n <= body.len(),
    ensures
        proto::hello_in(body) matches Ok(whole) ==> match proto::hello_in(body.take(n)) {
            Ok(cut) => cut.api_version == whole.api_version && cut.token == whole.token,
            Err(e) => e == buf::Error::Eof,
        },
{
    wire_laws::law_cut_fields(body, 0, "string", 0, n);
    lemma_var_forward(body, 0);
    let q = wire::read_var_i32(body, 0).1;
    if q <= n {
        wire_laws::law_cut_fields(body, q, "string", 0, n);
        lemma_var_forward(body, q);
        let q2 = wire::read_var_i32(body, q).1;
        if q2 <= n {
            wire_laws::law_cut_fields(body, q2, "string", 0, n);
            lemma_var_forward(body, q2);
            let q3 = wire::read_var_i32(body, q2).1;
            if q3 <= n {
                lemma_cut_i64(body, q3, n);
            }
        }
    }
}

proof fn lemma_ids_forward(d: Seq<u8>, p: int, count: nat)
    ensures
        palette::read_ids_at(d, p, count).0 is Ok ==> palette::read_ids_at(d, p, count).1 >= p,
    decreases count,
{
    if count > 0 {
        lemma_var_forward(d, p);
        lemma_ids_forward(d, palette::read_id_at(d, p).1, (count - 1) as nat);
    }
}

proof fn lemma_cut_ids(d: Seq<u8>, p: int, count: nat, n: int)
    requires
        0 <= p <= n <= d.len(),
    ensures
        cut_alike(palette::read_id_at(d, p), palette::read_id_at(d.take(n), p), n),
        cut_alike(
            palette::read_ids_at(d, p, count),
            palette::read_ids_at(d.take(n), p, count),
            n,
        ),
    decreases count,
{
    wire_laws::law_cut_fields(d, p, "palette", 0, n);
    lemma_var_forward(d, p);
    if count > 0 {
        let q = palette::read_id_at(d, p).1;
        lemma_ids_forward(d, q, (count - 1) as nat);
        if q <= n {
            lemma_cut_ids(d, q, (count - 1) as nat, n);
        }
    }
}

proof fn lemma_cut_packed(d: Seq<u8>, p: int, bits: nat, ids: Option<Seq<u16>>, n: int)
    requires
        0 <= p <= n <= d.len(),
    ensures
        cut_alike(
            palette::read_packed(d, p, bits, ids),
            palette::read_packed(d.take(n), p, bits, ids),
            n,
        ),
{
    wire_laws::law_cut_bytes(d, p, palette::word_count(bits) as int * 8, n);
}

proof fn lemma_packed_forward(d: Seq<u8>, p: int, bits: nat, ids: Option<Seq<u16>>)
    ensures
        palette::read_packed(d, p, bits, ids).0 is Ok ==> palette::read_packed(d, p, bits, ids).1
            >= p,
{
}

/// A section is whole or refused.
pub proof fn law_cut_section(d: Seq<u8>, p: int, n: int)
    requires
        0 <= p <= n <= d.len(),
    ensures
        cut_alike(palette::section_at(d, p), palette::section_at(d.take(n), p), n),
        palette::section_at(d, p).0 is Ok ==> palette::section_at(d, p).1 > p,
{
    if p < d.len() {
        let declared = d[p];
        let bits = palette::stored_bits(declared);
        let max = vstd::arithmetic::power2::pow2(bits) as usize;
        let (len, q) = wire::read_var_len(d, p + 1, "palette", max);
        lemma_var_forward(d, p + 1);
        if len is Ok {
            let (ids, q2) = palette::read_ids_at(d, q, len->Ok_0 as nat);
            lemma_ids_forward(d, q, len->Ok_0 as nat);
            if ids is Ok {
                lemma_packed_forward(d, q2, bits, Some(ids->Ok_0));
            }
        }
        lemma_packed_forward(d, p + 1, bits, None);
        if p < n {
            assert(d.take(n)[p] == declared);
            lemma_cut_ids(d, p + 1, 0, n);
            wire_laws::law_cut_fields(d, p + 1, "palette", max, n);
            lemma_cut_packed(d, p + 1, bits, None, n);
            if len is Ok && q <= n {
                let (ids, q2) = palette::read_ids_at(d, q, len->Ok_0 as nat);
                lemma_cut_ids(d, q, len->Ok_0 as nat, n);
                if ids is Ok && q2 <= n {
                    lemma_cut_packed(d, q2, bits, Some(ids->Ok_0), n);
                }
            }
        }
    }
}

proof fn lemma_entity_forward(d: Seq<u8>, p: int)
    ensures
        edits::read_entity_at(d, p).0 is Ok ==> edits::read_entity_at(d, p).1 >= p,
{
    lemma_var_forward(d, p + 2);
    let q = wire::read_var_i32(d, p + 2).1;
    lemma_var_forward(d, q + 1);
}

proof fn lemma_cut_entity(d: Seq<u8>, p: int, n: int)
    requires
        0 <= p <= n <= d.len(),
    ensures
        cut_alike(edits::read_entity_at(d, p), edits::read_entity_at(d.take(n), p), n),
{
    wire_laws::law_cut_numbers(d, p, n);
    lemma_var_forward(d, p + 2);
    let max = nbt::MAX_DECOMPRESSED;
    let (size, q) = wire::read_var_len(d, p + 2, "block entity NBT", max);
    lemma_var_forward(d, q + 1);
    if p + 2 <= n {
        wire_laws::law_cut_fields(d, p + 2, "block entity NBT", max, n);
        if q <= n {
            wire_laws::law_cut_numbers(d, q, n);
            if q + 1 <= n {
                wire_laws::law_cut_fields(
                    d,
                    q + 1,
                    "byte array",
                    edits::MAX_BLOCK_ENTITY_BYTES,
                    n,
                );
            }
        }
    }
}

proof fn lemma_entities_forward(d: Seq<u8>, p: int, count: nat)
    ensures
        edits::read_entities_at(d, p, count).0 is Ok ==> edits::read_entities_at(d, p, count).1
            >= p,
    decreases count,
{
    if count > 0 {
        lemma_entity_forward(d, p);
        lemma_entities_forward(d, edits::read_entity_at(d, p).1, (count - 1) as nat);
    }
}

proof fn lemma_cut_entities(d: Seq<u8>, p: int, count: nat, n: int)
    requires
        0 <= p <= n <= d.len(),
    ensures
        cut_alike(
            edits::read_entities_at(d, p, count),
            edits::read_entities_at(d.take(n), p, count),
            n,
        ),
    decreases count,
{
    if count > 0 {
        lemma_entity_forward(d, p);
        lemma_cut_entity(d, p, n);
        let q = edits::read_entity_at(d, p).1;
        lemma_entities_forward(d, q, (count - 1) as nat);
        if p <= q <= n {
            lemma_cut_entities(d, q, (count - 1) as nat, n);
        }
    }
}

/// A section of a block buffer, with its block entities, is whole or refused.
pub proof fn law_cut_buffer_section(d: Seq<u8>, p: int, key: i64, n: int)
    requires
        0 <= p <= n <= d.len(),
    ensures
        cut_alike(edits::read_section_at(d, p, key), edits::read_section_at(d.take(n), p, key), n),
{
    law_cut_section(d, p, n);
    let (entries, q) = palette::section_at(d, p);
    if entries is Ok {
        lemma_var_forward(d, q);
        let max = edits::MAX_BLOCK_ENTITIES;
        let (count, q2) = wire::read_var_len(d, q, "block entities", max);
        if count is Ok {
            lemma_entities_forward(d, q2, count->Ok_0 as nat);
        }
        if q <= n {
            wire_laws::law_cut_fields(d, q, "block entities", max, n);
            if count is Ok && q2 <= n {
                lemma_cut_entities(d, q2, count->Ok_0 as nat, n);
            }
        }
    }
}

/// Applying the sections of a cut buffer: the same if they end before the cut, and else those
/// that are whole, and the end of the buffer.
proof fn lemma_cut_applied(
    d: Seq<u8>,
    p: int,
    registry: edits::Registry,
    state: edits::NbtState,
    n: int,
)
    requires
        0 <= p <= n <= d.len(),
    ensures
        ({
            let whole = edits::sections_applied(d, p, registry, state);
            let cut = edits::sections_applied(d.take(n), p, registry, state);
            &&& whole.end matches Ok(q) ==> {
                &&& q >= p
                &&& q <= n ==> cut == whole
                &&& q > n ==> cut.end == Err::<int, Error>(Error::Eof)
                &&& cut.writes.is_prefix_of(whole.writes)
            }
        }),
    decreases d.len() - p,
{
    let whole = edits::sections_applied(d, p, registry, state);
    let cut = edits::sections_applied(d.take(n), p, registry, state);
    lemma_cut_i64(d, p, n);
    if let (Ok(key), q) = wire::read_i64(d, p) {
        if key != edits::MIN_POSITION_LONG {
            lemma_buffer_section_forward(d, q, key);
            if let (Ok(section), q2) = edits::read_section_at(d, q, key) {
                if p < q2 <= d.len() {
                    let (writes, next) = edits::section_applied(section, registry, state, 0);
                    if q <= n {
                        law_cut_buffer_section(d, q, key, n);
                    }
                    if q2 <= n {
                        lemma_cut_applied(d, q2, registry, next, n);
                        let rest = edits::sections_applied(d, q2, registry, next);
                        let less = edits::sections_applied(d.take(n), q2, registry, next);
                        if rest.end is Ok {
                            assert(less.writes =~= rest.writes.subrange(
                                0,
                                less.writes.len() as int,
                            ));
                            assert((writes + less.writes) =~= (writes + rest.writes).subrange(
                                0,
                                (writes + less.writes).len() as int,
                            ));
                        }
                    } else {
                        lemma_applied_forward(d, q2, registry, next);
                        assert(cut.writes =~= Seq::empty());
                        assert(cut.writes =~= whole.writes.subrange(0, 0));
                    }
                }
            }
        }
    }
    if cut.writes.len() == 0 {
        assert(cut.writes =~= whole.writes.subrange(0, 0));
    }
    if cut == whole {
        assert(whole.writes =~= whole.writes.subrange(0, whole.writes.len() as int));
    }
}

proof fn lemma_applied_forward(
    d: Seq<u8>,
    p: int,
    registry: edits::Registry,
    state: edits::NbtState,
)
    ensures
        edits::sections_applied(d, p, registry, state).end matches Ok(q) ==> q >= p,
    decreases d.len() - p,
{
    if let (Ok(key), q) = wire::read_i64(d, p) {
        if key != edits::MIN_POSITION_LONG {
            if let (Ok(section), q2) = edits::read_section_at(d, q, key) {
                if p < q2 <= d.len() {
                    let next = edits::section_applied(section, registry, state, 0).1;
                    lemma_applied_forward(d, q2, registry, next);
                }
            }
        }
    }
}

proof fn lemma_buffer_section_forward(d: Seq<u8>, p: int, key: i64)
    requires
        0 <= p,
    ensures
        edits::read_section_at(d, p, key).0 is Ok ==> edits::read_section_at(d, p, key).1 >= p,
{
    if p <= d.len() {
        law_cut_section(d, p, p);
        let (entries, q) = palette::section_at(d, p);
        if entries is Ok {
            lemma_var_forward(d, q);
            let (count, q2) = wire::read_var_len(
                d,
                q,
                "block entities",
                edits::MAX_BLOCK_ENTITIES,
            );
            if count is Ok {
                lemma_entities_forward(d, q2, count->Ok_0 as nat);
            }
        }
    }
}

/// Painting the cells of a cut buffer: the same if nothing is missing, and else those that are
/// whole, and the end of the buffer.
proof fn lemma_cut_biomes(d: Seq<u8>, p: int, unset: u8, names: nat, n: int)
    requires
        0 <= p <= n <= d.len(),
    ensures
        ({
            let whole = edits::biomes_applied(d, p, unset, names);
            let cut = edits::biomes_applied(d.take(n), p, unset, names);
            whole.1 is None ==> cut.0.is_prefix_of(whole.0) && (cut == whole || cut.1 == Some(
                Error::Eof,
            ))
        }),
    decreases d.len() - p,
{
    let whole = edits::biomes_applied(d, p, unset, names);
    let cut = edits::biomes_applied(d.take(n), p, unset, names);
    lemma_cut_i64(d, p, n);
    if let (Ok(key), q) = wire::read_i64(d, p) {
        if key != edits::MIN_POSITION_LONG && q <= n {
            wire_laws::law_cut_bytes(d, q, 4096, n);
            if q + 4096 <= n {
                lemma_cut_biomes(d, q + 4096, unset, names, n);
                let cells = d.subrange(q, q + 4096);
                let first = edits::cells_applied(wire::unpacked(key), cells, unset, names, 0);
                let rest = edits::biomes_applied(d, q + 4096, unset, names);
                let less = edits::biomes_applied(d.take(n), q + 4096, unset, names);
                if rest.1 is None {
                    assert(less.0 =~= rest.0.subrange(0, less.0.len() as int));
                    assert((first + less.0) =~= (first + rest.0).subrange(
                        0,
                        (first + less.0).len() as int,
                    ));
                }
            }
        }
    }
    if cut.0.len() == 0 {
        assert(cut.0 =~= whole.0.subrange(0, 0));
    }
}

proof fn lemma_names_forward(d: Seq<u8>, p: int, count: nat)
    ensures
        edits::read_names_at(d, p, count).0 is Ok ==> edits::read_names_at(d, p, count).1 >= p,
    decreases count,
{
    if count > 0 {
        lemma_string_forward(d, p);
        lemma_names_forward(d, wire::read_string(d, p).1, (count - 1) as nat);
    }
}

proof fn lemma_cut_names(d: Seq<u8>, p: int, count: nat, n: int)
    requires
        0 <= p <= n <= d.len(),
    ensures
        cut_alike(edits::read_names_at(d, p, count), edits::read_names_at(d.take(n), p, count), n),
    decreases count,
{
    if count > 0 {
        lemma_cut_string(d, p, n);
        lemma_string_forward(d, p);
        let q = wire::read_string(d, p).1;
        lemma_names_forward(d, q, (count - 1) as nat);
        if p <= q <= n {
            lemma_cut_names(d, q, (count - 1) as nat, n);
        }
    }
}

/// Whether a cut buffer comes to no more than the whole one: it writes and paints what the whole
/// one does first, and is refused as cut short unless it does all of it. What the client believes
/// it has left counts as zero where it is missing.
pub open spec fn cut_edit(whole: edits::EditView, cut: edits::EditView) -> bool {
    &&& cut.blocks.is_prefix_of(whole.blocks)
    &&& cut.cells.is_prefix_of(whole.cells)
    &&& cut.outcome == Err::<Option<edits::Charge>, Seq<char>>("unexpected end of buffer"@) || {
        &&& cut.blocks == whole.blocks
        &&& cut.cells == whole.cells
        &&& cut.biomes == whole.biomes
        &&& cut.outcome == whole.outcome || (whole.outcome matches Ok(Some(charge))
            && cut.outcome == Ok::<Option<edits::Charge>, Seq<char>>(
            Some(edits::Charge { sections: charge.sections, client_available: 0 }),
        ))
    }
}

proof fn lemma_cut_block_buffer(
    d: Seq<u8>,
    p: int,
    registry: edits::Registry,
    decoder: Option<Seq<Seq<u8>>>,
    n: int,
)
    requires
        0 <= p <= n <= d.len(),
    ensures
        edits::block_buffer(d, p, registry, decoder).outcome is Ok ==> cut_edit(
            edits::block_buffer(d, p, registry, decoder),
            edits::block_buffer(d.take(n), p, registry, decoder),
        ),
{
    let state = edits::NbtState { budget: edits::MAX_BUFFER_NBT_BYTES as nat, decoder };
    lemma_cut_applied(d, p, registry, state, n);
    let whole = edits::block_buffer(d, p, registry, decoder);
    assert(whole.cells.subrange(0, 0) =~= Seq::empty());
    if let Ok(q) = edits::sections_applied(d, p, registry, state).end {
        if q <= n {
            wire_laws::law_cut_fields(d, q, "string", 0, n);
            lemma_var_missing(d, q, n);
        }
    }
}

proof fn lemma_var_missing(d: Seq<u8>, p: int, n: int)
    requires
        0 <= p <= n <= d.len(),
    ensures
        wire::read_var_i32(d, p).0 is Err ==> wire::read_var_i32(d.take(n), p).0 is Err,
{
    lemma_groups_missing(d, p, 5, n);
}

proof fn lemma_groups_missing(d: Seq<u8>, p: int, max: nat, n: int)
    requires
        0 <= p <= n <= d.len(),
    ensures
        wire::read_groups(d, p, max).0 is Err ==> wire::read_groups(d.take(n), p, max).0 is Err,
    decreases max,
{
    if max > 0 && p < n {
        lemma_groups_missing(d, p + 1, (max - 1) as nat, n);
    }
}

proof fn lemma_cut_biome_buffer(
    d: Seq<u8>,
    p: int,
    applies: bool,
    decoder: Option<Seq<Seq<u8>>>,
    n: int,
)
    requires
        0 <= p <= n <= d.len(),
    ensures
        edits::biome_buffer(d, p, applies, decoder).outcome is Ok ==> cut_edit(
            edits::biome_buffer(d, p, applies, decoder),
            edits::biome_buffer(d.take(n), p, applies, decoder),
        ),
{
    let whole = edits::biome_buffer(d, p, applies, decoder);
    assert(whole.cells.subrange(0, 0) =~= Seq::empty());
    assert(whole.blocks.subrange(0, 0) =~= Seq::empty());
    assert(whole.cells.subrange(0, whole.cells.len() as int) =~= whole.cells);
    if p < n {
        assert(d.take(n)[p] == d[p]);
        let count = d[p] as nat;
        lemma_cut_names(d, p + 1, count, n);
        lemma_names_forward(d, p + 1, count);
        let (names, q) = edits::read_names_at(d, p + 1, count);
        if names is Ok && q < n && q < d.len() {
            assert(d.take(n)[q] == d[q]);
            lemma_cut_biomes(d, q + 1, d[q], names->Ok_0.len(), n);
        }
    }
}

/// A buffer that is cut short does what it does first, and is refused. The palette of a biome
/// buffer is read even where its player may not paint.
pub proof fn law_cut_buffer(
    body: Seq<u8>,
    allowed: bool,
    dimension: Seq<char>,
    registry: edits::Registry,
    decoder: Option<Seq<Seq<u8>>>,
    n: int,
)
    requires
        0 <= n <= body.len(),
        edits::buffer_asked(body, allowed, dimension, registry, decoder).outcome is Ok,
    ensures
        cut_edit(
            edits::buffer_asked(body, allowed, dimension, registry, decoder),
            edits::buffer_asked(body.take(n), allowed, dimension, registry, decoder),
        ),
{
    let whole = edits::buffer_asked(body, allowed, dimension, registry, decoder);
    assert(whole.cells.subrange(0, 0) =~= Seq::empty());
    assert(whole.blocks.subrange(0, 0) =~= Seq::empty());
    lemma_cut_string(body, 0, n);
    lemma_string_forward(body, 0);
    let (wanted, q) = wire::read_string(body, 0);
    if q <= n {
        wire_laws::law_cut_numbers(body, q, n);
        if q + 16 < n {
            assert(body.take(n)[q + 16] == body[q + 16]);
            let applies = allowed && handlers::bare(dimension) == handlers::bare(wanted->Ok_0);
            if body[q + 16] == 0 {
                lemma_cut_block_buffer(body, q + 17, registry, decoder, n);
            } else if body[q + 16] == 1 {
                lemma_cut_biome_buffer(body, q + 17, applies, decoder, n);
            }
        }
    }
}

/// A biome buffer without its palette is refused, whether or not its player may paint.
pub proof fn law_missing_palette_is_refused(
    body: Seq<u8>,
    named: Seq<char>,
    uuid: (u64, u64),
    allowed: bool,
    dimension: Seq<char>,
    registry: edits::Registry,
    decoder: Option<Seq<Seq<u8>>>,
)
    requires
        vstd::utf8::encode_utf8(named).len() <= wire::MAX_STRING_BYTES,
        body == wire::string_bytes(named) + wire::uuid_bytes(uuid.0, uuid.1) + seq![1u8],
    ensures
        edits::buffer_asked(body, allowed, dimension, registry, decoder).outcome == Err::<
            Option<edits::Charge>,
            Seq<char>,
        >("unexpected end of buffer"@),
{
    let s = wire::string_bytes(named);
    let u = wire::uuid_bytes(uuid.0, uuid.1);
    assert(body.subrange(0, body.len() as int) =~= body);
    wire::lemma_stands_split(body, 0, s + u, seq![1u8]);
    wire::lemma_stands_split(body, 0, s, u);
    wire::lemma_to_be_len(uuid.0 as nat, 8);
    wire::lemma_to_be_len(uuid.1 as nat, 8);
    wire::law_string_round_trip(body, 0, named);
    wire::law_uuid_round_trip(body, s.len() as int, uuid.0, uuid.1);
    wire::law_u8_round_trip(body, (s.len() + 16) as int, 1);
}

proof fn lemma_cut_array_len(d: Seq<u8>, p: int, n: int)
    requires
        0 <= p <= n <= d.len(),
    ensures
        cut_alike(nbt::read_array_len(d, p), nbt::read_array_len(d.take(n), p), n),
        nbt::read_array_len(d, p).0 is Ok ==> nbt::read_array_len(d, p).1 == p + 4,
{
    wire_laws::law_cut_numbers(d, p, n);
}

proof fn lemma_cut_past_array(d: Seq<u8>, p: int, width: int, n: int)
    requires
        0 <= p <= n <= d.len(),
        0 <= width,
    ensures
        cut_alike(nbt::past_array(d, p, width), nbt::past_array(d.take(n), p, width), n),
{
    lemma_cut_array_len(d, p, n);
    if let (Ok(len), q) = nbt::read_array_len(d, p) {
        assert(0 <= len * width) by (nonlinear_arith)
            requires
                0 <= len,
                0 <= width,
        ;
        if q <= n {
            wire_laws::law_cut_bytes(d, q, len * width, n);
        }
    }
}

proof fn lemma_cut_text(d: Seq<u8>, p: int, n: int)
    requires
        0 <= p <= n <= d.len(),
    ensures
        cut_alike(nbt::past_text(d, p), nbt::past_text(d.take(n), p), n),
        nbt::past_text(d, p).0 is Ok ==> nbt::past_text(d, p).1 >= p + 2,
{
    wire_laws::law_cut_numbers(d, p, n);
    if let (Ok(len), q) = wire::read_u16(d, p) {
        if q <= n {
            wire_laws::law_cut_bytes(d, q, len as int, n);
        }
    }
}

proof fn lemma_cut_payload(d: Seq<u8>, p: int, tag: u8, depth: nat, n: int)
    requires
        0 <= p <= n <= d.len(),
    ensures
        cut_alike(
            nbt::past_payload(d, p, tag, depth),
            nbt::past_payload(d.take(n), p, tag, depth),
            n,
        ),
    decreases nbt::levels_left(depth), 0nat, 0int,
{
    if depth > 512 || tag == 0 {
    } else if 1 <= tag <= 6 {
        wire_laws::law_cut_bytes(d, p, crate::nbt_laws::number_width(tag), n);
    } else if tag == 7 {
        lemma_cut_past_array(d, p, 1, n);
    } else if tag == 11 {
        lemma_cut_past_array(d, p, 4, n);
    } else if tag == 12 {
        lemma_cut_past_array(d, p, 8, n);
    } else if tag == 8 {
        lemma_cut_text(d, p, n);
    } else if tag == 9 {
        lemma_cut_list(d, p, depth, n);
    } else if tag == 10 {
        lemma_cut_entries(d, p, depth + 1, n);
    }
}

proof fn lemma_cut_list(d: Seq<u8>, p: int, depth: nat, n: int)
    requires
        0 <= p <= n <= d.len(),
        depth <= 512,
    ensures
        cut_alike(
            nbt::past_payload(d, p, 9, depth),
            nbt::past_payload(d.take(n), p, 9, depth),
            n,
        ),
    decreases nbt::levels_left((depth + 1) as nat), 2nat, 0int,
{
    if p < d.len() {
        let element = d[p];
        lemma_array_len_forward(d, p + 1);
        if let (Ok(len), q) = nbt::read_array_len(d, p + 1) {
            lemma_items_forward(d, q, element, len as nat, depth + 1);
        }
        if p < n {
            assert(d.take(n)[p] == element);
            lemma_cut_array_len(d, p + 1, n);
            if let (Ok(len), q) = nbt::read_array_len(d, p + 1) {
                if q <= n {
                    lemma_cut_items(d, q, element, len as nat, depth + 1, n);
                }
            }
        }
    }
}

proof fn lemma_array_len_forward(d: Seq<u8>, p: int)
    ensures
        nbt::read_array_len(d, p).0 is Ok ==> nbt::read_array_len(d, p).1 == p + 4 && p + 4
            <= d.len(),
{
}

proof fn lemma_items_forward(d: Seq<u8>, p: int, element: u8, count: nat, depth: nat)
    requires
        0 <= p <= d.len(),
    ensures
        nbt::past_items(d, p, element, count, depth).1 >= p,
    decreases count,
{
    if count > 0 {
        nbt::lemma_past_forward(d, p, element, depth);
        let q = nbt::past_payload(d, p, element, depth).1;
        lemma_items_forward(d, q, element, (count - 1) as nat, depth);
    }
}

proof fn lemma_cut_items(d: Seq<u8>, p: int, element: u8, count: nat, depth: nat, n: int)
    requires
        0 <= p <= n <= d.len(),
    ensures
        cut_alike(
            nbt::past_items(d, p, element, count, depth),
            nbt::past_items(d.take(n), p, element, count, depth),
            n,
        ),
    decreases nbt::levels_left(depth), 1nat, count as int,
{
    if count > 0 {
        nbt::lemma_past_forward(d, p, element, depth);
        lemma_cut_payload(d, p, element, depth, n);
        let q = nbt::past_payload(d, p, element, depth).1;
        lemma_items_forward(d, q, element, (count - 1) as nat, depth);
        if q <= n {
            lemma_cut_items(d, q, element, (count - 1) as nat, depth, n);
        }
    }
}

proof fn lemma_entries_forward(d: Seq<u8>, p: int, depth: nat)
    ensures
        nbt::past_entries(d, p, depth).0 is Ok ==> nbt::past_entries(d, p, depth).1 > p,
    decreases d.len() - p,
{
    if p < d.len() && d[p] != 0 {
        if let (Ok(()), q2) = nbt::past_text(d, p + 1) {
            if let (Ok(()), q3) = nbt::past_payload(d, q2, d[p], depth) {
                if p < q3 <= d.len() {
                    lemma_entries_forward(d, q3, depth);
                }
            }
        }
    }
}

proof fn lemma_cut_entries(d: Seq<u8>, p: int, depth: nat, n: int)
    requires
        0 <= p <= n <= d.len(),
    ensures
        cut_alike(nbt::past_entries(d, p, depth), nbt::past_entries(d.take(n), p, depth), n),
    decreases nbt::levels_left(depth), 1nat, d.len() - p,
{
    if p < d.len() {
        let tag = d[p];
        lemma_entries_forward(d, p, depth);
        if p < n {
            assert(d.take(n)[p] == tag);
            if tag != 0 {
                lemma_cut_text(d, p + 1, n);
                if let (Ok(()), q2) = nbt::past_text(d, p + 1) {
                    nbt::lemma_past_forward(d, q2, tag, depth);
                    if q2 <= n {
                        lemma_cut_payload(d, q2, tag, depth, n);
                    }
                    if let (Ok(()), q3) = nbt::past_payload(d, q2, tag, depth) {
                        if p < q3 <= d.len() {
                            lemma_entries_forward(d, q3, depth);
                            if q3 <= n {
                                lemma_cut_entries(d, q3, depth, n);
                            }
                        }
                    }
                }
            }
        }
    }
}

/// A value in the network form is whole or refused.
pub proof fn law_cut_network_tag(d: Seq<u8>, p: int, n: int)
    requires
        0 <= p <= n <= d.len(),
    ensures
        cut_alike(nbt::read_network_tag(d, p), nbt::read_network_tag(d.take(n), p), n),
        nbt::read_network_tag(d, p).0 is Ok ==> nbt::read_network_tag(d, p).1 >= p,
{
    if p < d.len() {
        nbt::lemma_past_forward(d, p + 1, d[p], 0);
        let q = nbt::past_payload(d, p + 1, d[p], 0).1;
        if p < n {
            assert(d.take(n)[p] == d[p]);
            lemma_cut_payload(d, p + 1, d[p], 0, n);
            if q <= n {
                assert(d.take(n).subrange(p, q) =~= d.subrange(p, q));
            }
        }
    }
}

proof fn lemma_cut_movement(d: Seq<u8>, p: int, n: int)
    requires
        0 <= p <= n <= d.len(),
    ensures
        cut_alike(entities::read_movement_at(d, p), entities::read_movement_at(d.take(n), p), n),
        entities::read_movement_at(d, p).0 is Ok ==> entities::read_movement_at(d, p).1 >= p,
{
    if p < n {
        assert(d.take(n)[p] == d[p]);
        lemma_cut_u64(d, p + 1, n);
        if p + 9 <= n {
            lemma_cut_u64(d, p + 9, n);
            if p + 17 <= n {
                lemma_cut_u64(d, p + 17, n);
                if p + 25 <= n {
                    lemma_cut_u32(d, p + 25, n);
                    if p + 29 <= n {
                        lemma_cut_u32(d, p + 29, n);
                    }
                }
            }
        }
    }
}

/// Whether a cut part of a packet comes to what the whole part comes to and ends where it does, or
/// is refused as cut short.
spec fn cut_same<T>(
    whole: (Result<T, Seq<char>>, int),
    cut: (Result<T, Seq<char>>, int),
    n: int,
) -> bool {
    whole.0 is Ok ==> {
        &&& whole.1 <= n ==> cut == whole
        &&& whole.1 > n ==> cut.0 == Err::<T, Seq<char>>("unexpected end of buffer"@)
    }
}

proof fn lemma_uuid_list_forward(d: Seq<u8>, p: int)
    ensures
        entities::read_uuid_list_at(d, p).0 is Ok ==> entities::read_uuid_list_at(d, p).1 >= p,
{
    lemma_var_forward(d, p);
    let (len, q) = wire::read_var_len(d, p, "uuid list", handlers::MAX_COLLECTION);
    if len is Ok {
        lemma_uuids_len(d, q, len->Ok_0 as nat);
    }
}

proof fn lemma_cut_passengers(d: Seq<u8>, p: int, n: int)
    requires
        0 <= p <= n <= d.len(),
    ensures
        cut_same(entities::read_passengers_at(d, p), entities::read_passengers_at(d.take(n), p), n),
        entities::read_passengers_at(d, p).0 is Ok ==> entities::read_passengers_at(d, p).1 >= p,
{
    wire_laws::law_cut_fields(d, p, "string", 0, n);
    lemma_var_forward(d, p);
    let q = wire::read_var_i32(d, p).1;
    lemma_uuid_list_forward(d, q);
    if q <= n {
        lemma_cut_uuid_list(d, q, n);
    }
}

proof fn lemma_cut_manipulation(d: Seq<u8>, p: int, n: int)
    requires
        0 <= p <= n <= d.len(),
    ensures
        cut_same(
            entities::read_manipulation_at(d, p),
            entities::read_manipulation_at(d.take(n), p),
            n,
        ),
        entities::read_manipulation_at(d, p).0 is Ok ==> entities::read_manipulation_at(d, p).1
            >= p,
{
    wire_laws::law_cut_numbers(d, p, n);
    lemma_manipulation_forward(d, p);
    if p + 16 <= n {
        lemma_cut_movement(d, p + 16, n);
        let (movement, q2) = entities::read_movement_at(d, p + 16);
        if movement is Ok && q2 <= n {
            law_cut_network_tag(d, q2, n);
            let (tag, q3) = nbt::read_network_tag(d, q2);
            if tag is Ok && q3 <= n {
                lemma_cut_passengers(d, q3, n);
            }
        }
    }
}

proof fn lemma_movement_forward(d: Seq<u8>, p: int)
    ensures
        entities::read_movement_at(d, p).0 is Ok ==> p <= entities::read_movement_at(d, p).1
            <= d.len(),
{
}

proof fn lemma_manipulation_forward(d: Seq<u8>, p: int)
    requires
        0 <= p,
    ensures
        entities::read_manipulation_at(d, p).0 is Ok ==> ({
            let q2 = entities::read_movement_at(d, p + 16).1;
            let q3 = nbt::read_network_tag(d, q2).1;
            p + 16 <= q2 <= q3 <= entities::read_manipulation_at(d, p).1
        }),
{
    lemma_movement_forward(d, p + 16);
    let (movement, q2) = entities::read_movement_at(d, p + 16);
    if movement is Ok {
        law_cut_network_tag(d, q2, q2);
        let q3 = nbt::read_network_tag(d, q2).1;
        lemma_var_forward(d, q3);
        lemma_uuid_list_forward(d, wire::read_var_i32(d, q3).1);
    }
}

proof fn lemma_manipulations_forward(d: Seq<u8>, p: int, count: nat)
    requires
        0 <= p,
    ensures
        entities::read_manipulations_at(d, p, count).0 is Ok ==> entities::read_manipulations_at(
            d,
            p,
            count,
        ).1 >= p,
    decreases count,
{
    if count > 0 {
        lemma_manipulation_forward(d, p);
        let (first, q) = entities::read_manipulation_at(d, p);
        if first is Ok {
            lemma_manipulations_forward(d, q, (count - 1) as nat);
        }
    }
}

proof fn lemma_cut_manipulations(d: Seq<u8>, p: int, count: nat, n: int)
    requires
        0 <= p <= n <= d.len(),
    ensures
        cut_same(
            entities::read_manipulations_at(d, p, count),
            entities::read_manipulations_at(d.take(n), p, count),
            n,
        ),
    decreases count,
{
    if count > 0 {
        lemma_cut_manipulation(d, p, n);
        let (first, q) = entities::read_manipulation_at(d, p);
        if first is Ok {
            lemma_manipulations_forward(d, q, (count - 1) as nat);
            if q <= n {
                lemma_cut_manipulations(d, q, (count - 1) as nat, n);
            }
        }
    }
}

/// Manipulations of entities are whole or refused.
pub proof fn law_cut_manipulations(body: Seq<u8>, allowed: bool, n: int)
    requires
        0 <= n <= body.len(),
    ensures
        cut_or_same(
            entities::manipulations_asked(body, allowed),
            entities::manipulations_asked(body.take(n), allowed),
        ),
{
    let max = handlers::MAX_COLLECTION;
    wire_laws::law_cut_fields(body, 0, "manipulate list", max, n);
    lemma_var_forward(body, 0);
    let (count, q) = wire::read_var_len(body, 0, "manipulate list", max);
    if count is Ok && q <= n {
        lemma_cut_manipulations(body, q, count->Ok_0 as nat, n);
    }
}

proof fn lemma_body_forward(d: Seq<u8>, p: int)
    requires
        0 <= p <= d.len(),
    ensures
        annotations::body_at(d, p).0 is Ok ==> annotations::body_at(d, p).1 >= p,
{
    if p < d.len() {
        if let Some(parts) = annotations::layout(d[p]) {
            lemma_spanned(d, p, d[p], parts);
        }
    }
}

proof fn lemma_cut_acted(list: Seq<annotations::AnnotationView>, d: Seq<u8>, p: int, n: int)
    requires
        0 <= p <= n <= d.len(),
    ensures
        cut_same(annotations::acted(list, d, p), annotations::acted(list, d.take(n), p), n),
        annotations::acted(list, d, p).0 is Ok ==> annotations::acted(list, d, p).1 >= p,
{
    if p + 17 <= d.len() {
        lemma_body_forward(d, p + 17);
    }
    if p < n {
        assert(d.take(n)[p] == d[p]);
        wire_laws::law_cut_numbers(d, p + 1, n);
        if p + 17 <= n {
            law_cut_annotation(d, p + 17, n);
            wire_laws::law_cut_bytes(d, p + 17, 12, n);
            wire_laws::law_cut_bytes(d, p + 17, 16, n);
        }
    }
}

proof fn lemma_cut_actions(
    list: Seq<annotations::AnnotationView>,
    d: Seq<u8>,
    p: int,
    count: nat,
    n: int,
)
    requires
        0 <= p <= n <= d.len(),
    ensures
        ({
            let whole = annotations::acted_all(list, d, p, count);
            let cut = annotations::acted_all(list, d.take(n), p, count);
            whole.0 is Ok ==> cut == whole || cut.0 == Err::<(Seq<u8>, nat), Seq<char>>(
                "unexpected end of buffer"@,
            )
        }),
    decreases count,
{
    if count > 0 {
        lemma_cut_acted(list, d, p, n);
        if let (Ok((next, relayed)), q) = annotations::acted(list, d, p) {
            if q <= n {
                lemma_cut_actions(next, d, q, (count - 1) as nat, n);
                assert(d.take(n).subrange(p, q) =~= d.subrange(p, q));
            }
        }
    }
}

/// A batch of actions on annotations is whole or refused.
pub proof fn law_cut_annotation_batch(
    list: Seq<annotations::AnnotationView>,
    body: Seq<u8>,
    n: int,
)
    requires
        0 <= n <= body.len(),
    ensures
        cut_or_same(
            annotations::updated(list, body).0,
            annotations::updated(list, body.take(n)).0,
        ),
{
    let max = annotations::MAX_ANNOTATIONS;
    wire_laws::law_cut_fields(body, 0, "annotation actions", max, n);
    lemma_var_forward(body, 0);
    let (count, q) = wire::read_var_len(body, 0, "annotation actions", max);
    if count is Ok && q <= n {
        lemma_cut_actions(list, body, q, count->Ok_0 as nat, n);
    }
}

} // verus!
