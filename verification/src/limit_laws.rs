//! Laws of what is too much: lists and values beyond their limits are refused.

use vstd::prelude::*;

use crate::annotations;
use crate::buf::Error;
use crate::chunks;
use crate::edits;
use crate::entities;
use crate::fields;
use crate::palette;
use crate::ticking;
use crate::wire;
use crate::wire_laws;

verus! {

/// Lists of positions, keys, entities and changes have 1024 items at most.
pub proof fn law_long_lists_are_refused(d: Seq<u8>, p: int, n: i32, what: &'static str)
    requires
        n > 1024,
        wire::stands(d, p, wire::var_i32_bytes(n)),
    ensures
        chunks::read_key_list_at(d, p, what).0 == Err::<Seq<i64>, Error>(
            Error::TooLarge { what, len: n as usize, max: 1024 },
        ),
        entities::read_uuid_list_at(d, p).0 == Err::<Seq<(u64, u64)>, Error>(
            Error::TooLarge { what: "uuid list", len: n as usize, max: 1024 },
        ),
        edits::read_protected_at(d, p, true).0 == Err::<Seq<(i32, i32, i32)>, Error>(
            Error::TooLarge { what: "prevent-updates set", len: n as usize, max: 1024 },
        ),
{
    wire_laws::law_lengths_are_limited(d, p, n, what, 1024);
    wire_laws::law_lengths_are_limited(d, p, n, "uuid list", 1024);
    wire_laws::law_lengths_are_limited(d, p, n, "prevent-updates set", 1024);
}

/// A packet changes 1024 blocks or entities at most, and carries 4096 actions on annotations at
/// most.
pub proof fn law_long_packets_are_refused(body: Seq<u8>, n: i32)
    requires
        wire::stands(body, 0, wire::var_i32_bytes(n)),
    ensures
        n > 1024 ==> edits::placements_in(body) == Err::<edits::PlacementsView, Error>(
            Error::TooLarge { what: "block map", len: n as usize, max: 1024 },
        ),
        n > 1024 ==> entities::manipulations_asked(body, true) is Err,
        n > 4096 ==> annotations::updated(Seq::empty(), body).0 is Err,
{
    wire_laws::law_lengths_are_limited(body, 0, n, "block map", 1024);
    wire_laws::law_lengths_are_limited(body, 0, n, "manipulate list", 1024);
    wire_laws::law_lengths_are_limited(body, 0, n, "annotation actions", 4096);
}

/// A block entity of more than 1,048,576 bytes is refused, compressed or not.
pub proof fn law_large_block_entities_are_refused(
    d: Seq<u8>,
    p: int,
    offset: u16,
    size: i32,
    dictionary: u8,
    compressed: i32,
)
    requires
        wire::laid(
            d,
            p,
            seq![
                wire::to_be(offset as nat, 2),
                wire::var_i32_bytes(size),
                seq![dictionary],
                wire::var_i32_bytes(compressed),
            ],
        ),
        size > 1_048_576 || (0 <= size && compressed > 1_048_576),
    ensures
        edits::read_entity_at(d, p).0 == Err::<edits::EntityView, Error>(
            if size > 1_048_576 {
                Error::TooLarge { what: "block entity NBT", len: size as usize, max: 1_048_576 }
            } else {
                Error::TooLarge { what: "byte array", len: compressed as usize, max: 1_048_576 }
            },
        ),
{
    let parts = seq![
        wire::to_be(offset as nat, 2),
        wire::var_i32_bytes(size),
        seq![dictionary],
        wire::var_i32_bytes(compressed),
    ];
    reveal_with_fuel(wire::laid, 5);
    wire::law_u16_round_trip(d, p, offset);
    let rest = parts.skip(1);
    assert(rest[0] == wire::var_i32_bytes(size));
    wire::law_var_i32_round_trip(d, p + 2, size);
    let rest = rest.skip(1);
    assert(rest[0] == seq![dictionary]);
    let q = p + 2 + wire::var_i32_bytes(size).len();
    wire::law_u8_round_trip(d, q, dictionary);
    let rest = rest.skip(1);
    assert(rest[0] == wire::var_i32_bytes(compressed));
    wire::law_var_i32_round_trip(d, q + 1, compressed);
}

/// A section has 4096 block entities at most.
pub proof fn law_many_block_entities_are_refused(
    d: Seq<u8>,
    p: int,
    key: i64,
    entries: Seq<u16>,
    q: int,
    n: i32,
)
    requires
        palette::section_at(d, p) == (Ok::<Seq<u16>, Error>(entries), q),
        wire::stands(d, q, wire::var_i32_bytes(n)),
        n > 4096,
    ensures
        edits::read_section_at(d, p, key).0 == Err::<edits::SectionView, Error>(
            Error::TooLarge { what: "block entities", len: n as usize, max: 4096 },
        ),
{
    wire_laws::law_lengths_are_limited(d, q, n, "block entities", 4096);
}

/// A selection names 1024 sections at most.
pub proof fn law_many_selected_sections_are_refused(d: Seq<u8>, p: int, n: i32)
    requires
        wire::stands(d, p, seq![0u8] + wire::var_i32_bytes(n)),
        n > 1024,
    ensures
        ticking::selection_at(d, p) is Err,
{
    wire::lemma_stands_split(d, p, seq![0u8], wire::var_i32_bytes(n));
    wire::law_u8_round_trip(d, p, 0);
    wire_laws::law_lengths_are_limited(d, p + 1, n, "position set", 1024);
}

/// The points of a line are 1,048,576 bytes at most, and a lines outline has as many positions at
/// most.
pub proof fn law_long_lines_are_refused(d: Seq<u8>, p: int, n: i32)
    requires
        wire::stands(d, p, wire::var_i32_bytes(n)),
        n > 1_048_576,
    ensures
        annotations::layout(0) matches Some(parts) && fields::past_part(d, p, parts.last()).0
            is Err,
        annotations::layout(3) matches Some(parts) && fields::past_part(d, p, parts.last()).0
            is Err,
        annotations::layout(4) matches Some(parts) && fields::past_part(d, p, parts[0]).0 is Err,
{
    wire_laws::law_lengths_are_limited(d, p, n, "byte array", 1_048_576);
    wire_laws::law_lengths_are_limited(d, p, n, "outline positions", 1_048_576);
}

/// A request is served its first 128 sections.
pub proof fn law_first_sections_are_served(keys: Seq<i64>)
    ensures
        chunks::first_sections(keys) == if keys.len() <= 128 {
            keys
        } else {
            keys.take(128)
        },
{
}

} // verus!
