//! Laws of the entity tools: what packets do to entities, said by what stands in them.

use vstd::prelude::*;
use vstd::string::*;

use crate::buf::Error;
use crate::entities;
use crate::entities::{
    BatchesView, DataView, EntityInfo, ManipulationView, Match, Movement, PassengerView,
};
use crate::nbt;
use crate::nbt::FieldView;
use crate::nbt_laws;
use crate::text;
use crate::wire;

verus! {

/// Whether bit `n` of a byte is set.
pub open spec fn bit(b: u8, n: nat) -> bool {
    (b as int / vstd::arithmetic::power2::pow2(n) as int) % 2 == 1
}

proof fn lemma_bits(b: u8)
    ensures
        (b & 1 != 0) == bit(b, 0),
        (b & 2 != 0) == bit(b, 1),
        (b & 4 != 0) == bit(b, 2),
        (b & 8 != 0) == bit(b, 3),
        (b & 16 != 0) == bit(b, 4),
{
    vstd::arithmetic::power2::lemma2_to64();
    assert((b & 1 != 0) == (b % 2 == 1) && (b & 2 != 0) == ((b / 2) % 2 == 1) && (b & 4 != 0) == ((b
        / 4) % 2 == 1) && (b & 8 != 0) == ((b / 8) % 2 == 1) && (b & 16 != 0) == ((b / 16) % 2
        == 1)) by (bit_vector);
}

/// A movement is read as what it was made of: three coordinates and two angles in this order,
/// each relative to where the entity is where its own bit of the flags is set.
pub proof fn law_movement_is_read(
    d: Seq<u8>,
    p: int,
    flags: u8,
    x: u64,
    y: u64,
    z: u64,
    yaw: u32,
    pitch: u32,
)
    requires
        flags < 128,
        wire::laid(
            d,
            p,
            seq![
                seq![flags],
                wire::to_be(x as nat, 8),
                wire::to_be(y as nat, 8),
                wire::to_be(z as nat, 8),
                wire::to_be(yaw as nat, 4),
                wire::to_be(pitch as nat, 4),
            ],
        ),
    ensures
        entities::read_movement_at(d, p) == (
            Ok::<Option<Movement>, Error>(
                Some(
                    Movement {
                        relative_x: bit(flags, 0),
                        relative_y: bit(flags, 1),
                        relative_z: bit(flags, 2),
                        relative_yaw: bit(flags, 3),
                        relative_pitch: bit(flags, 4),
                        x,
                        y,
                        z,
                        yaw,
                        pitch,
                    },
                ),
            ),
            p + 33,
        ),
{
    reveal_with_fuel(wire::laid, 7);
    wire::lemma_to_be_len(x as nat, 8);
    wire::lemma_to_be_len(y as nat, 8);
    wire::lemma_to_be_len(z as nat, 8);
    wire::lemma_to_be_len(yaw as nat, 4);
    wire::law_u8_round_trip(d, p, flags);
    wire::law_u64_round_trip(d, p + 1, x);
    wire::law_u64_round_trip(d, p + 9, y);
    wire::law_u64_round_trip(d, p + 17, z);
    wire::law_u32_round_trip(d, p + 25, yaw);
    wire::law_u32_round_trip(d, p + 29, pitch);
    lemma_bits(flags);
}

/// A flag byte with its highest bit set leaves the entity where it is, and nothing follows it.
pub proof fn law_entity_is_left_where_it_is(d: Seq<u8>, p: int, flags: u8)
    requires
        flags >= 128,
        wire::stands(d, p, seq![flags]),
    ensures
        entities::read_movement_at(d, p) == (Ok::<Option<Movement>, Error>(None), p + 1),
{
    wire::law_u8_round_trip(d, p, flags);
}

/// UUIDs as they follow each other on the wire.
pub open spec fn uuids_bytes(list: Seq<(u64, u64)>) -> Seq<u8>
    decreases list.len(),
{
    if list.len() == 0 {
        Seq::empty()
    } else {
        wire::uuid_bytes(list[0].0, list[0].1) + uuids_bytes(list.skip(1))
    }
}

/// A list of UUIDs on the wire.
pub open spec fn uuid_list_bytes(list: Seq<(u64, u64)>) -> Seq<u8> {
    wire::len_bytes(list.len()) + uuids_bytes(list)
}

proof fn lemma_uuids_back(d: Seq<u8>, p: int, list: Seq<(u64, u64)>)
    requires
        wire::stands(d, p, uuids_bytes(list)),
    ensures
        entities::read_uuids_at(d, p, list.len()) == (
            Ok::<Seq<(u64, u64)>, Error>(list),
            p + uuids_bytes(list).len(),
        ),
    decreases list.len(),
{
    if list.len() > 0 {
        let rest = list.skip(1);
        let (high, low) = list[0];
        wire::lemma_to_be_len(high as nat, 8);
        wire::lemma_to_be_len(low as nat, 8);
        wire::lemma_stands_split(d, p, wire::uuid_bytes(high, low), uuids_bytes(rest));
        wire::law_uuid_round_trip(d, p, high, low);
        lemma_uuids_back(d, p + 16, rest);
        assert(seq![list[0]] + rest =~= list);
    } else {
        assert(list =~= Seq::empty());
    }
}

/// A list of up to 1024 UUIDs is read as what it was made of.
pub proof fn law_uuid_list_is_read(d: Seq<u8>, p: int, list: Seq<(u64, u64)>)
    requires
        list.len() <= 1024,
        wire::stands(d, p, uuid_list_bytes(list)),
    ensures
        entities::read_uuid_list_at(d, p) == (
            Ok::<Seq<(u64, u64)>, Error>(list),
            p + uuid_list_bytes(list).len(),
        ),
{
    let n = wire::len_bytes(list.len());
    wire::lemma_stands_split(d, p, n, uuids_bytes(list));
    wire::law_var_len_round_trip(d, p, list.len(), "uuid list", 1024);
    lemma_uuids_back(d, p + n.len(), list);
}

/// A change to those riding an entity, as it stands on the wire.
pub open spec fn passengers_bytes(change: PassengerView) -> Seq<u8> {
    match change {
        PassengerView::Keep => seq![0u8],
        PassengerView::RemoveAll => seq![1u8],
        PassengerView::Add(list) => seq![2u8] + uuid_list_bytes(list),
        PassengerView::Remove(list) => seq![3u8] + uuid_list_bytes(list),
    }
}

/// Whether a change names as many entities as it may.
pub open spec fn may_name(change: PassengerView) -> bool {
    match change {
        PassengerView::Add(list) => list.len() <= 1024,
        PassengerView::Remove(list) => list.len() <= 1024,
        _ => true,
    }
}

/// A change to those riding an entity is read as what it was made of.
pub proof fn law_passengers_are_read(d: Seq<u8>, p: int, change: PassengerView)
    requires
        may_name(change),
        wire::stands(d, p, passengers_bytes(change)),
    ensures
        entities::read_passengers_at(d, p) == (
            Ok::<PassengerView, Seq<char>>(change),
            p + passengers_bytes(change).len(),
        ),
{
    let kind: u8 = match change {
        PassengerView::Keep => 0,
        PassengerView::RemoveAll => 1,
        PassengerView::Add(_) => 2,
        PassengerView::Remove(_) => 3,
    };
    let list: Seq<u8> = match change {
        PassengerView::Add(list) => uuid_list_bytes(list),
        PassengerView::Remove(list) => uuid_list_bytes(list),
        _ => Seq::empty(),
    };
    assert(passengers_bytes(change) =~= seq![kind] + list);
    assert(wire::var_i32_bytes(kind as i32) =~= seq![kind]);
    wire::lemma_stands_split(d, p, seq![kind], list);
    wire::law_var_i32_round_trip(d, p, kind as i32);
    match change {
        PassengerView::Add(list) => law_uuid_list_is_read(d, p + 1, list),
        PassengerView::Remove(list) => law_uuid_list_is_read(d, p + 1, list),
        _ => {},
    }
}

/// A manipulation is what its parts say: whose it is, where it moves them to, the tag they are
/// given, and who rides them, in this order.
pub proof fn law_manipulation_is_read(
    d: Seq<u8>,
    p: int,
    uuid: (u64, u64),
    movement: Option<Movement>,
    moved_to: int,
    tag: Seq<u8>,
    change: PassengerView,
)
    requires
        wire::stands(d, p, wire::uuid_bytes(uuid.0, uuid.1)),
        entities::read_movement_at(d, p + 16) == (
            Ok::<Option<Movement>, Error>(movement),
            moved_to,
        ),
        0 <= moved_to,
        nbt::read_network_tag(tag, 0) == (Ok::<Seq<u8>, Error>(tag), tag.len() as int),
        wire::laid(d, moved_to, seq![tag, passengers_bytes(change)]),
        may_name(change),
    ensures
        ({
            let (read, end) = entities::read_manipulation_at(d, p);
            &&& read matches Ok(entry) && entry.uuid == uuid && entry.movement == movement
                && entry.passengers == change && entry.merge == entities::merge_of(tag)
            &&& end == moved_to + tag.len() + passengers_bytes(change).len()
        }),
{
    reveal_with_fuel(wire::laid, 3);
    wire::law_uuid_round_trip(d, p, uuid.0, uuid.1);
    nbt_laws::law_network_tag_is_measured(tag, d, moved_to);
    law_passengers_are_read(d, moved_to + tag.len(), change);
}

/// Whether manipulation `i` is read from its start, and ends where the next one starts.
pub open spec fn stands_at(
    body: Seq<u8>,
    entries: Seq<ManipulationView>,
    starts: Seq<int>,
    i: int,
) -> bool {
    entities::read_manipulation_at(body, starts[i]) == (
        Ok::<ManipulationView, Seq<char>>(entries[i]),
        starts[i + 1],
    )
}

/// Manipulations are read one after the other, each from where the one before it ends, and all
/// of them are asked for, or none where their player may not.
pub proof fn law_manipulations_are_read_in_order(
    body: Seq<u8>,
    entries: Seq<ManipulationView>,
    starts: Seq<int>,
)
    requires
        entries.len() <= 1024,
        starts.len() == entries.len() + 1,
        wire::stands(body, 0, wire::len_bytes(entries.len())),
        starts[0] == wire::len_bytes(entries.len()).len(),
        forall|i: int| 0 <= i < entries.len() ==> #[trigger] stands_at(body, entries, starts, i),
    ensures
        entities::manipulations_asked(body, true) == Ok::<
            Option<Seq<ManipulationView>>,
            Seq<char>,
        >(Some(entries)),
        entities::manipulations_asked(body, false) == Ok::<
            Option<Seq<ManipulationView>>,
            Seq<char>,
        >(None),
{
    wire::law_var_len_round_trip(body, 0, entries.len(), "manipulate list", 1024);
    lemma_manipulations_back(body, entries, starts, 0);
    assert(entries.skip(0) =~= entries);
}

#[verifier::rlimit(30)]
proof fn lemma_manipulations_back(
    body: Seq<u8>,
    entries: Seq<ManipulationView>,
    starts: Seq<int>,
    i: int,
)
    requires
        0 <= i <= entries.len(),
        starts.len() == entries.len() + 1,
        forall|i: int| 0 <= i < entries.len() ==> #[trigger] stands_at(body, entries, starts, i),
    ensures
        entities::read_manipulations_at(body, starts[i], (entries.len() - i) as nat).0 == Ok::<
            Seq<ManipulationView>,
            Seq<char>,
        >(entries.skip(i)),
    decreases entries.len() - i,
{
    if i < entries.len() {
        lemma_manipulations_back(body, entries, starts, i + 1);
        assert(stands_at(body, entries, starts, i));
        assert(seq![entries[i]] + entries.skip(i + 1) =~= entries.skip(i));
    } else {
        assert(entries.skip(i) =~= Seq::empty());
    }
}

/// A tag of fields that a client may set, and without riders, is merged as it was sent. An end
/// marker alone changes nothing, and neither does a tag that is no compound.
pub proof fn law_allowed_tag_is_merged_whole(fields: Seq<FieldView>, tag: Seq<u8>)
    requires
        nbt_laws::fits(fields, 1),
        forall|i: int|
            0 <= i < fields.len() ==> nbt::allowed_key((#[trigger] fields[i]).name)
                && fields[i].name != "Passengers".spec_bytes(),
    ensures
        entities::merge_of(nbt::compound_bytes(fields)) == Some(nbt::compound_bytes(fields)),
        tag.len() <= 1 || tag[0] != 10 ==> entities::merge_of(tag) is None,
{
    nbt_laws::law_compound_round_trip(fields);
    nbt_laws::law_allowed_fields_stay(fields);
}

/// What a packet deletes is what it names, where its player may.
pub proof fn law_deletion_is_read(body: Seq<u8>, list: Seq<(u64, u64)>)
    requires
        list.len() <= 1024,
        wire::stands(body, 0, uuid_list_bytes(list)),
    ensures
        entities::delete_asked(body, true) == Ok::<Option<Seq<(u64, u64)>>, Seq<char>>(Some(list)),
        entities::delete_asked(body, false) == Ok::<Option<Seq<(u64, u64)>>, Seq<char>>(None),
{
    law_uuid_list_is_read(body, 0, list);
}

/// What a packet asks about is what it names, under its id.
pub proof fn law_data_request_is_read(body: Seq<u8>, id: i64, list: Seq<(u64, u64)>)
    requires
        list.len() <= 1024,
        wire::laid(body, 0, seq![wire::i64_bytes(id), uuid_list_bytes(list)]),
    ensures
        entities::entity_data_asked(body, true) == Ok::<
            (i64, Option<Seq<(u64, u64)>>),
            Seq<char>,
        >((id, Some(list))),
{
    reveal_with_fuel(wire::laid, 3);
    wire::law_i64_round_trip(body, 0, id);
    law_uuid_list_is_read(body, 8, list);
}

/// Where a UUID first stands in a list.
pub open spec fn first_place(wanted: Seq<(u64, u64)>, uuid: (u64, u64), k: int) -> bool {
    &&& 0 <= k < wanted.len()
    &&& wanted[k] == uuid
    &&& forall|j: int| 0 <= j < k ==> wanted[j] != uuid
}

proof fn lemma_place_first(wanted: Seq<(u64, u64)>, uuid: (u64, u64), from: int)
    requires
        0 <= from <= wanted.len(),
    ensures
        match entities::place_of(wanted, uuid, from) {
            Some(k) => from <= k < wanted.len() && wanted[k] == uuid && forall|j: int|
                from <= j < k ==> wanted[j] != uuid,
            None => forall|j: int| from <= j < wanted.len() ==> wanted[j] != uuid,
        },
    decreases wanted.len() - from,
{
    if from < wanted.len() {
        lemma_place_first(wanted, uuid, from + 1);
    }
}

proof fn lemma_matched(world: Seq<EntityInfo>, wanted: Seq<(u64, u64)>, from: int, e: int, k: int)
    requires
        0 <= from <= e < world.len() <= usize::MAX,
        wanted.len() <= usize::MAX,
        first_place(wanted, world[e].uuid, k),
    ensures
        entities::matches_from(world, wanted, from).contains(
            Match { wanted: k as usize, entity: e as usize },
        ),
    decreases e - from,
{
    let m = Match { wanted: k as usize, entity: e as usize };
    let all = entities::matches_from(world, wanted, from);
    let rest = entities::matches_from(world, wanted, from + 1);
    lemma_place_first(wanted, world[from].uuid, 0);
    if from == e {
        let at = entities::place_of(wanted, world[e].uuid, 0)->Some_0;
        if at < k {
            assert(wanted[at] != world[e].uuid);
        } else if k < at {
            assert(wanted[k] != world[e].uuid);
        }
        assert(all[0] == m);
    } else {
        lemma_matched(world, wanted, from + 1, e, k);
        let i = choose|i: int| 0 <= i < rest.len() && rest[i] == m;
        if entities::place_of(wanted, world[from].uuid, 0) is Some {
            assert(all[i + 1] == m);
        } else {
            assert(all[i] == m);
        }
    }
}

proof fn lemma_not_dropped(world: Seq<EntityInfo>, matches: Seq<Match>, m: Match)
    requires
        matches.contains(m),
        !world[m.entity as int].is_player,
    ensures
        entities::no_players(world, matches).contains(m),
    decreases matches.len(),
{
    let i = choose|i: int| 0 <= i < matches.len() && matches[i] == m;
    let out = entities::no_players(world, matches);
    let rest = matches.skip(1);
    let later = entities::no_players(world, rest);
    if i == 0 {
        assert(out[0] == m);
    } else {
        assert(rest[i - 1] == m);
        lemma_not_dropped(world, rest, m);
        let k = choose|k: int| 0 <= k < later.len() && later[k] == m;
        if world[matches[0].entity as int].is_player {
            assert(out[k] == m);
        } else {
            assert(out[k + 1] == m);
        }
    }
}

/// No entity that a packet names is missed: each is found under the first place it is named at,
/// and each that is no player is touched.
pub proof fn law_every_named_entity_is_found(
    world: Seq<EntityInfo>,
    wanted: Seq<(u64, u64)>,
    e: int,
    k: int,
)
    requires
        0 <= e < world.len() <= usize::MAX,
        wanted.len() <= usize::MAX,
        first_place(wanted, world[e].uuid, k),
    ensures
        ({
            let m = Match { wanted: k as usize, entity: e as usize };
            let found = entities::matches_from(world, wanted, 0);
            &&& found.contains(m)
            &&& !world[e].is_player ==> entities::no_players(world, found).contains(m)
        }),
{
    lemma_matched(world, wanted, 0, e, k);
    let m = Match { wanted: k as usize, entity: e as usize };
    if !world[e].is_player {
        lemma_not_dropped(world, entities::matches_from(world, wanted, 0), m);
    }
}

/// Entities are found in the order of the sweep, none of them twice.
pub proof fn law_matches_follow_the_sweep(
    world: Seq<EntityInfo>,
    wanted: Seq<(u64, u64)>,
    from: int,
    i: int,
    j: int,
)
    requires
        0 <= from <= world.len() <= usize::MAX,
        0 <= i < j < entities::matches_from(world, wanted, from).len(),
    ensures
        ({
            let found = entities::matches_from(world, wanted, from);
            from <= found[i].entity < found[j].entity < world.len()
        }),
    decreases world.len() - from,
{
    let found = entities::matches_from(world, wanted, from);
    let rest = entities::matches_from(world, wanted, from + 1);
    if from < world.len() {
        if entities::place_of(wanted, world[from].uuid, 0) is Some {
            assert(found[j] == rest[j - 1]);
            if i > 0 {
                assert(found[i] == rest[i - 1]);
                law_matches_follow_the_sweep(world, wanted, from + 1, i - 1, j - 1);
            } else {
                lemma_matches_from(world, wanted, from + 1, j - 1);
            }
        } else {
            law_matches_follow_the_sweep(world, wanted, from + 1, i, j);
        }
    }
}

proof fn lemma_matches_from(world: Seq<EntityInfo>, wanted: Seq<(u64, u64)>, from: int, i: int)
    requires
        0 <= from <= world.len() <= usize::MAX,
        0 <= i < entities::matches_from(world, wanted, from).len(),
    ensures
        from <= entities::matches_from(world, wanted, from)[i].entity < world.len(),
    decreases world.len() - from,
{
    let found = entities::matches_from(world, wanted, from);
    let rest = entities::matches_from(world, wanted, from + 1);
    if from < world.len() {
        if entities::place_of(wanted, world[from].uuid, 0) is Some {
            if i > 0 {
                assert(found[i] == rest[i - 1]);
                lemma_matches_from(world, wanted, from + 1, i - 1);
            }
        } else {
            lemma_matches_from(world, wanted, from + 1, i);
        }
    }
}

/// Every payload of an answer starts with its id, says whether it is the last of them, and then
/// has its entities with their count in front, each as its UUID and its NBT.
pub proof fn law_data_payloads_are_laid_out(id: i64, b: BatchesView, i: int)
    requires
        0 <= i <= b.sent.len(),
    ensures
        ({
            let batch = if i < b.sent.len() {
                b.sent[i]
            } else {
                b.open
            };
            &&& entities::data_payloads(id, b).len() == b.sent.len() + 1
            &&& entities::data_payloads(id, b)[i] == wire::i64_bytes(id) + seq![
                if i == b.sent.len() { 1u8 } else { 0u8 },
            ] + wire::len_bytes(batch.len()) + entities::data_bytes(batch)
        }),
{
    let batch = if i < b.sent.len() {
        b.sent[i]
    } else {
        b.open
    };
    assert(entities::data_payloads(id, b)[i] =~= wire::i64_bytes(id) + seq![
        if i == b.sent.len() { 1u8 } else { 0u8 },
    ] + wire::len_bytes(batch.len()) + entities::data_bytes(batch));
}

/// Entities follow each other in a payload, each as its UUID and then its NBT.
pub proof fn law_data_follows_in_order(a: Seq<DataView>, b: Seq<DataView>)
    ensures
        entities::data_bytes(a + b) == entities::data_bytes(a) + entities::data_bytes(b),
        a.len() == 1 ==> entities::data_bytes(a) == wire::to_be(a[0].uuid.0 as nat, 8)
            + wire::to_be(a[0].uuid.1 as nat, 8) + a[0].nbt,
    decreases a.len(),
{
    if a.len() == 0 {
        assert(a + b =~= b);
        assert(entities::data_bytes(a) + entities::data_bytes(b) =~= entities::data_bytes(b));
    } else {
        let rest = a.skip(1);
        assert((a + b).skip(1) =~= rest + b);
        law_data_follows_in_order(rest, b);
        assert(entities::data_bytes(a + b) =~= entities::data_bytes(a) + entities::data_bytes(b));
        if a.len() == 1 {
            assert(entities::data_bytes(rest) =~= Seq::empty());
            assert(entities::data_bytes(a) =~= wire::to_be(a[0].uuid.0 as nat, 8) + wire::to_be(
                a[0].uuid.1 as nat,
                8,
            ) + a[0].nbt);
        }
    }
}

/// Entities whose NBT fits into one payload together are sent in one, in their order.
pub proof fn law_small_answer_is_one_payload(entries: Seq<DataView>)
    requires
        entities::nbt_len(entries) < 1_048_512,
    ensures
        entities::batched(entries) == (BatchesView { sent: Seq::empty(), open: entries }),
    decreases entries.len(),
{
    if entries.len() > 0 {
        law_small_answer_is_one_payload(entries.drop_last());
        assert(entries.drop_last().push(entries.last()) =~= entries);
    } else {
        assert(entries =~= Seq::empty());
    }
}

/// The data of an entity goes behind that of the others in the payload that is open if their NBT
/// is 1,048,512 bytes at most together, and else starts the next payload. Data that is as long
/// alone has a payload of its own, and what is open stays open.
pub proof fn law_data_goes_where_it_fits(b: entities::BatchesView, entry: entities::DataView)
    ensures
        ({
            let next = entities::with_data(b, entry);
            if entry.nbt.len() >= 1_048_512 {
                next.sent == b.sent.push(seq![entry]) && next.open == b.open
            } else if entities::nbt_len(b.open) + entry.nbt.len() <= 1_048_512 {
                next.sent == b.sent && next.open == b.open.push(entry)
            } else {
                next.sent == b.sent.push(b.open) && next.open == seq![entry]
            }
        }),
{
}

/// How much NBT entities have is what each of them has, together.
pub proof fn law_nbt_is_added_up(a: Seq<entities::DataView>, entry: entities::DataView)
    ensures
        entities::nbt_len(a.push(entry)) == entities::nbt_len(a) + entry.nbt.len(),
        entities::nbt_len(Seq::empty()) == 0,
{
    assert(a.push(entry).drop_last() =~= a);
}

/// There are four things to do about those who ride an entity; any other is refused by its number.
pub proof fn law_other_passenger_changes_are_refused(d: Seq<u8>, p: int, kind: i32)
    requires
        wire::stands(d, p, wire::var_i32_bytes(kind)),
        kind < 0 || kind > 3,
    ensures
        entities::read_passengers_at(d, p).0 == Err::<PassengerView, Seq<char>>(
            "unknown passenger manipulation: "@ + text::signed_decimal(kind as int),
        ),
{
    wire::law_var_i32_round_trip(d, p, kind);
}

/// A tag that is empty, or that is no compound, changes nothing about an entity.
pub proof fn law_other_tags_change_nothing(tag: Seq<u8>)
    requires
        tag.len() <= 1 || tag[0] != 10,
    ensures
        entities::merge_of(tag) is None,
{
}

} // verus!
