//! Laws of chunk data: what a request asks for, and what a client reads out of the answer.

use vstd::prelude::*;

use crate::buf::Error;
use crate::chunks;
use crate::chunks::{Batch, FoundEntity, FoundSection};
use crate::handlers;
use crate::nbt;
use crate::palette;
use crate::wire;
use crate::zstd;

verus! {

/// Keys as they follow each other on the wire.
pub open spec fn keys_bytes(keys: Seq<i64>) -> Seq<u8>
    decreases keys.len(),
{
    if keys.len() == 0 {
        Seq::empty()
    } else {
        wire::i64_bytes(keys[0]) + keys_bytes(keys.skip(1))
    }
}

proof fn lemma_keys_back(d: Seq<u8>, p: int, keys: Seq<i64>)
    requires
        wire::stands(d, p, keys_bytes(keys)),
    ensures
        chunks::read_keys_at(d, p, keys.len()) == (
            Ok::<Seq<i64>, Error>(keys),
            p + keys_bytes(keys).len(),
        ),
    decreases keys.len(),
{
    if keys.len() > 0 {
        let rest = keys.skip(1);
        wire::lemma_stands_split(d, p, wire::i64_bytes(keys[0]), keys_bytes(rest));
        wire::law_i64_round_trip(d, p, keys[0]);
        lemma_keys_back(d, p + 8, rest);
        assert(seq![keys[0]] + rest =~= keys);
    } else {
        assert(keys =~= Seq::empty());
    }
}

/// A request is read as what it was made of. Who may ask is served the block entities they ask
/// for, if they may ask for those, and the first 128 sections, each in the order they were asked
/// for; in another dimension than the one they are in they are served nothing.
pub proof fn law_request_is_read(
    body: Seq<u8>,
    id: i64,
    named: Seq<char>,
    flag: bool,
    entities: Seq<i64>,
    sections: Seq<i64>,
    entities_allowed: bool,
    dimension: Seq<char>,
)
    requires
        vstd::utf8::encode_utf8(named).len() <= wire::MAX_STRING_BYTES,
        entities.len() <= 1024,
        sections.len() <= 1024,
        wire::laid(
            body,
            0,
            seq![
                wire::i64_bytes(id),
                wire::string_bytes(named),
                wire::bool_bytes(flag),
                wire::len_bytes(entities.len()),
                keys_bytes(entities),
                wire::len_bytes(sections.len()),
                keys_bytes(sections),
            ],
        ),
    ensures
        ({
            let asked = chunks::chunks_asked(body, true, entities_allowed, dimension);
            &&& asked is Ok
            &&& asked->Ok_0.0 == id
            &&& handlers::bare(dimension) != handlers::bare(named) ==> asked->Ok_0.1 is None
            &&& handlers::bare(dimension) == handlers::bare(named) ==> {
                &&& asked->Ok_0.1 matches Some(wanted) && {
                    &&& entities_allowed ==> wanted.entities == entities
                    &&& !entities_allowed ==> wanted.entities.len() == 0
                    &&& sections.len() <= 128 ==> wanted.sections == sections
                    &&& sections.len() > 128 ==> wanted.sections.len() == 128 && forall|i: int|
                        0 <= i < 128 ==> wanted.sections[i] == sections[i]
                }
            }
        }),
{
    let a = wire::string_bytes(named);
    let b = wire::len_bytes(entities.len());
    let c = keys_bytes(entities);
    let e = wire::len_bytes(sections.len());
    reveal_with_fuel(wire::laid, 8);
    wire::law_i64_round_trip(body, 0, id);
    wire::law_string_round_trip(body, 8, named);
    let q = (8 + a.len()) as int;
    wire::law_bool_round_trip(body, q, flag);
    wire::law_var_len_round_trip(body, q + 1, entities.len(), "block entity list", 1024);
    lemma_keys_back(body, q + 1 + b.len(), entities);
    let q2 = q + 1 + b.len() + c.len();
    wire::law_var_len_round_trip(body, q2, sections.len(), "section list", 1024);
    lemma_keys_back(body, q2 + e.len(), sections);
}

/// The entry of a section whose chunk is loaded starts with its key. It is without data exactly
/// where the chunk has no 4096 states for it, or all of them are zero: air. Else the client reads
/// every one of the states out of it, unless they are too varied for a palette: then there is no
/// entry.
pub proof fn law_section_is_served(key: i64, states: Option<Seq<u16>>)
    ensures
        ({
            let air = match states {
                Some(ids) => ids.len() != 4096 || forall|i: int| 0 <= i < 4096 ==> ids[i] == 0,
                None => true,
            };
            match chunks::section_entry(key, states) {
                Some(entry) => {
                    &&& wire::read_i64(entry, 0) == (Ok::<i64, Error>(key), 8int)
                    &&& wire::read_bool(entry, 8) == (Ok::<bool, Error>(!air), 9int)
                    &&& air ==> entry.len() == 9
                    &&& !air ==> palette::section_at(entry, 9) == (
                        Ok::<Seq<u16>, Error>(states->Some_0),
                        entry.len() as int,
                    )
                },
                None => !air && palette::distinct(states->Some_0).len() > 256,
            }
        }),
{
    let head = wire::i64_bytes(key);
    if let Some(ids) = states {
        if ids.len() == 4096 && exists|i: int| 0 <= i < 4096 && ids[i] != 0 {
            let i = choose|i: int| 0 <= i < 4096 && ids[i] != 0;
            assert(ids[i] != 0);
            if palette::distinct(ids).len() <= 256 {
                let entry = head + wire::bool_bytes(true) + palette::indirect_bytes(ids);
                assert(entry.subrange(0, entry.len() as int) =~= entry);
                wire::lemma_stands_split(
                    entry,
                    0,
                    head + wire::bool_bytes(true),
                    palette::indirect_bytes(ids),
                );
                wire::lemma_stands_split(entry, 0, head, wire::bool_bytes(true));
                wire::law_i64_round_trip(entry, 0, key);
                wire::law_bool_round_trip(entry, 8, true);
                palette::law_section_round_trip(ids, entry, 9);
            }
        }
    }
    let entry = head + wire::bool_bytes(false);
    assert(entry.subrange(0, entry.len() as int) =~= entry);
    wire::lemma_stands_split(entry, 0, head, wire::bool_bytes(false));
    wire::law_i64_round_trip(entry, 0, key);
    wire::law_bool_round_trip(entry, 8, false);
    if let Some(ids) = states {
        if ids.len() == 4096 && !(exists|i: int| 0 <= i < 4096 && ids[i] != 0) {
            assert forall|i: int| 0 <= i < 4096 implies ids[i] == 0 by {
                assert(!(0 <= i < 4096 && ids[i] != 0));
            }
        }
    }
}

/// The entry of a block entity that is there and is a compound: the client reads its key, the
/// size of the document, the first dictionary, and a frame that stores the document with an
/// empty name given to its root. Any other has no entry.
pub proof fn law_block_entity_is_served(key: i64, found: Option<Seq<u8>>)
    requires
        found matches Some(bytes) ==> bytes.len() <= 0x1000_0000,
    ensures
        match chunks::entity_entry(key, found) {
            Some(entry) => {
                &&& found matches Some(bytes) && bytes.len() > 0 && bytes[0] == 10
                &&& ({
                    let named = seq![10u8, 0u8, 0u8] + found->Some_0.skip(1);
                    let n = wire::len_bytes(named.len()).len() as int;
                    &&& wire::read_i64(entry, 0) == (Ok::<i64, Error>(key), 8int)
                    &&& wire::read_var_len(entry, 8, "size", 0x7fff_ffff) == (
                        Ok::<usize, Error>(named.len() as usize),
                        8 + n,
                    )
                    &&& wire::read_u8(entry, 8 + n) == (Ok::<u8, Error>(0), 9 + n)
                    &&& zstd::raw_frame(named).len() <= 0x7fff_ffff ==> wire::read_byte_array(
                        entry,
                        9 + n,
                        0x7fff_ffff,
                    ) == (Ok::<Seq<u8>, Error>(zstd::raw_frame(named)), entry.len() as int)
                })
            },
            None => found is None || found->Some_0.len() == 0 || found->Some_0[0] != 10,
        },
{
    if let Some(bytes) = found {
        if bytes.len() > 0 && bytes[0] == 10 {
            let named = seq![10u8, 0u8, 0u8] + bytes.skip(1);
            let head = wire::i64_bytes(key);
            let size = wire::len_bytes(named.len());
            let frame = wire::sized_bytes(zstd::raw_frame(named));
            let entry = head + size + seq![0u8] + frame;
            assert(entry.subrange(0, entry.len() as int) =~= entry);
            wire::lemma_stands_split(entry, 0, head + size + seq![0u8], frame);
            wire::lemma_stands_split(entry, 0, head + size, seq![0u8]);
            wire::lemma_stands_split(entry, 0, head, size);
            wire::law_i64_round_trip(entry, 0, key);
            wire::law_var_len_round_trip(entry, 8, named.len(), "size", 0x7fff_ffff);
            wire::law_u8_round_trip(entry, (8 + size.len()) as int, 0);
            if zstd::raw_frame(named).len() <= 0x7fff_ffff {
                wire::law_sized_round_trip(
                    entry,
                    (9 + size.len()) as int,
                    zstd::raw_frame(named),
                    "byte array",
                    0x7fff_ffff,
                );
            }
            assert(chunks::entity_entry(key, found) == Some(entry));
        }
    }
}

/// Block entities that were looked up are served in their order, each by its own entry if it has
/// one.
pub proof fn law_block_entities_are_served_in_order(a: Seq<FoundEntity>, b: Seq<FoundEntity>)
    ensures
        chunks::entity_entries(a + b) == chunks::entity_entries(a) + chunks::entity_entries(b),
        a.len() == 1 ==> chunks::entity_entries(a) == match chunks::entity_entry(
            a[0].key,
            nbt::document(a[0].nbt),
        ) {
            Some(entry) => seq![entry],
            None => Seq::empty(),
        },
    decreases a.len(),
{
    if a.len() == 0 {
        assert(a + b =~= b);
        assert(chunks::entity_entries(a) + chunks::entity_entries(b) =~= chunks::entity_entries(b));
    } else {
        let rest = a.skip(1);
        assert((a + b).skip(1) =~= rest + b);
        law_block_entities_are_served_in_order(rest, b);
        assert(chunks::entity_entries(a + b) =~= chunks::entity_entries(a)
            + chunks::entity_entries(b));
        if a.len() == 1 {
            assert(chunks::entity_entries(rest) =~= Seq::empty());
            assert(chunks::entity_entries(a) =~= match chunks::entity_entry(
                a[0].key,
                nbt::document(a[0].nbt),
            ) {
                Some(entry) => seq![entry],
                None => Seq::empty(),
            });
        }
    }
}

/// Sections that were looked up are served in their order, each by its own entry if it has one.
/// One whose chunk is not loaded has none.
pub proof fn law_sections_are_served_in_order(a: Seq<FoundSection>, b: Seq<FoundSection>)
    ensures
        chunks::section_entries(a + b) == chunks::section_entries(a) + chunks::section_entries(b),
        a.len() == 1 ==> chunks::section_entries(a) == match a[0].loaded {
            None => Seq::empty(),
            Some(states) => match chunks::section_entry(a[0].key, chunks::states_of(states)) {
                Some(entry) => seq![entry],
                None => Seq::empty(),
            },
        },
    decreases a.len(),
{
    if a.len() == 0 {
        assert(a + b =~= b);
        assert(chunks::section_entries(a) + chunks::section_entries(b)
            =~= chunks::section_entries(b));
    } else {
        let rest = a.skip(1);
        assert((a + b).skip(1) =~= rest + b);
        law_sections_are_served_in_order(rest, b);
        assert(chunks::section_entries(a + b) =~= chunks::section_entries(a)
            + chunks::section_entries(b));
        if a.len() == 1 {
            assert(chunks::section_entries(rest) =~= Seq::empty());
            assert(chunks::section_entries(a) =~= match a[0].loaded {
                None => Seq::empty(),
                Some(states) => match chunks::section_entry(a[0].key, chunks::states_of(states)) {
                    Some(entry) => seq![entry],
                    None => Seq::empty(),
                },
            });
        }
    }
}

/// Every payload of a response starts with its id, then lists its block entities, then its
/// sections, each list closed by the lowest position, and says at its end whether it is the last
/// of them.
pub proof fn law_payloads_are_laid_out(id: i64, all: Seq<Batch>, i: int)
    requires
        0 <= i < all.len(),
    ensures
        ({
            let d = chunks::payloads(id, all)[i];
            let end = wire::block_pos_bytes(
                (-33_554_432) as i32,
                (-2048) as i32,
                (-33_554_432) as i32,
            );
            let parts = seq![
                wire::i64_bytes(id),
                all[i].entities,
                end,
                all[i].sections,
                end,
                seq![if i == all.len() - 1 { 1u8 } else { 0u8 }],
            ];
            &&& chunks::payloads(id, all).len() == all.len()
            &&& wire::laid(d, 0, parts)
            &&& d.len() == wire::total(parts)
        }),
{
    let d = chunks::payloads(id, all)[i];
    let end = wire::block_pos_bytes((-33_554_432) as i32, (-2048) as i32, (-33_554_432) as i32);
    let last = seq![if i == all.len() - 1 { 1u8 } else { 0u8 }];
    crate::edits::law_sentinel_is_the_lowest_position();
    let a = wire::i64_bytes(id);
    let b = all[i].entities;
    let c = all[i].sections;
    assert(d =~= a + b + end + c + end + last);
    assert(d.subrange(0, d.len() as int) =~= d);
    wire::lemma_stands_split(d, 0, a + b + end + c + end, last);
    wire::lemma_stands_split(d, 0, a + b + end + c, end);
    wire::lemma_stands_split(d, 0, a + b + end, c);
    wire::lemma_stands_split(d, 0, a + b, end);
    wire::lemma_stands_split(d, 0, a, b);
    reveal_with_fuel(wire::laid, 7);
    reveal_with_fuel(wire::total, 7);
}

/// A response goes on in a new payload only where it has to: entries that fit into one payload
/// together, with the id and what closes the first list, are sent in one.
pub proof fn law_small_response_is_one_payload(
    id: i64,
    entities: Seq<Seq<u8>>,
    sections: Seq<Seq<u8>>,
)
    requires
        chunks::joined(entities).len() + chunks::joined(sections).len() + 16 <= 1_048_512,
    ensures
        chunks::batches(id, entities, sections) == seq![
            Batch { entities: chunks::joined(entities), sections: chunks::joined(sections) },
        ],
{
    let none = Batch { entities: Seq::empty(), sections: Seq::empty() };
    let start = chunks::ResponseView {
        id,
        sent: Seq::empty(),
        open: none,
        entities_open: true,
    };
    lemma_all_fit(start, entities);
    let middle = chunks::with_entries(start, entities);
    assert(Seq::<u8>::empty() + chunks::joined(entities) =~= chunks::joined(entities));
    let reopened = chunks::ResponseView { entities_open: false, ..middle };
    lemma_all_fit(reopened, sections);
    assert(Seq::<u8>::empty() + chunks::joined(sections) =~= chunks::joined(sections));
    assert(chunks::batches(id, entities, sections) =~= seq![
        Batch { entities: chunks::joined(entities), sections: chunks::joined(sections) },
    ]);
}

proof fn lemma_all_fit(r: chunks::ResponseView, entries: Seq<Seq<u8>>)
    requires
        r.entities_open ==> r.open.sections.len() == 0,
        16 + r.open.entities.len() + r.open.sections.len() + chunks::joined(entries).len()
            <= 1_048_512,
    ensures
        chunks::with_entries(r, entries) == if r.entities_open {
            chunks::ResponseView {
                open: Batch { entities: r.open.entities + chunks::joined(entries), ..r.open },
                ..r
            }
        } else {
            chunks::ResponseView {
                open: Batch { sections: r.open.sections + chunks::joined(entries), ..r.open },
                ..r
            }
        },
    decreases entries.len(),
{
    wire::lemma_to_be_len(wire::unsigned(r.id as int, 0x1_0000_0000_0000_0000) as nat, 8);
    wire::lemma_to_be_len(
        wire::unsigned(
            crate::edits::MIN_POSITION_LONG as int,
            0x1_0000_0000_0000_0000,
        ) as nat,
        8,
    );
    if entries.len() == 0 {
        assert(r.open.entities + chunks::joined(entries) =~= r.open.entities);
        assert(r.open.sections + chunks::joined(entries) =~= r.open.sections);
    } else {
        let entry = entries[0];
        let rest = entries.skip(1);
        let next = chunks::with_entry(r, entry);
        assert(next.sent == r.sent);
        lemma_all_fit(next, rest);
        assert(r.open.entities + entry + chunks::joined(rest) =~= r.open.entities
            + chunks::joined(entries));
        assert(r.open.sections + entry + chunks::joined(rest) =~= r.open.sections
            + chunks::joined(entries));
    }
}

/// An entry goes behind the others of the payload that is open if that has 1,048,512 bytes at most
/// then, and else starts the next payload.
pub proof fn law_entry_goes_where_it_fits(r: chunks::ResponseView, entry: Seq<u8>)
    ensures
        ({
            let used = if r.entities_open {
                8 + r.open.entities.len()
            } else {
                8 + r.open.entities.len() + 8 + r.open.sections.len()
            };
            let next = chunks::with_entry(r, entry);
            let base = if used + entry.len() <= 1_048_512 {
                r.open
            } else {
                chunks::Batch { entities: Seq::empty(), sections: Seq::empty() }
            };
            &&& next.id == r.id && next.entities_open == r.entities_open
            &&& next.sent == if used + entry.len() <= 1_048_512 {
                r.sent
            } else {
                r.sent.push(r.open)
            }
            &&& r.entities_open ==> next.open.entities == base.entities + entry
                && next.open.sections == base.sections
            &&& !r.entities_open ==> next.open.sections == base.sections + entry
                && next.open.entities == base.entities
        }),
{
    wire::lemma_to_be_len(wire::unsigned(r.id as int, 0x1_0000_0000_0000_0000) as nat, 8);
    wire::lemma_to_be_len(
        wire::unsigned(-9_223_371_899_415_820_288, 0x1_0000_0000_0000_0000) as nat,
        8,
    );
}

} // verus!
