//! The entity tools: deleting, looking at, moving and editing entities.

use vstd::multiset::Multiset;
use vstd::prelude::*;
use vstd::string::*;

use crate::buf::{Error, Reader, Writer};
use crate::chunks::MAX_RESPONSE_BYTES;
use crate::handlers;
use crate::handlers::MAX_COLLECTION;
use crate::nbt;
use crate::nbt_laws;
use crate::text;
use crate::wire;

verus! {

/// UUIDs that follow each other.
pub open spec fn read_uuids_at(d: Seq<u8>, p: int, n: nat) -> (
    Result<Seq<(u64, u64)>, Error>,
    int,
)
    decreases n,
{
    if n == 0 {
        (Ok(Seq::empty()), p)
    } else {
        match wire::read_uuid(d, p) {
            (Err(e), q) => (Err(e), q),
            (Ok(uuid), q) => match read_uuids_at(d, q, (n - 1) as nat) {
                (Err(e), q2) => (Err(e), q2),
                (Ok(rest), q2) => (Ok(seq![uuid] + rest), q2),
            },
        }
    }
}

/// A list of UUIDs with its length in front.
pub open spec fn read_uuid_list_at(d: Seq<u8>, p: int) -> (Result<Seq<(u64, u64)>, Error>, int) {
    match wire::read_var_len(d, p, "uuid list", MAX_COLLECTION) {
        (Err(e), q) => (Err(e), q),
        (Ok(n), q) => read_uuids_at(d, q, n as nat),
    }
}

/// What reading UUIDs says, with the UUIDs taken by their contents.
pub open spec fn uuids_of(r: Result<Vec<(u64, u64)>, Error>) -> Result<Seq<(u64, u64)>, Error> {
    match r {
        Ok(list) => Ok(list@),
        Err(e) => Err(e),
    }
}

/// Reads a list of UUIDs.
pub fn read_uuid_list(r: &mut Reader<'_>) -> (res: Result<Vec<(u64, u64)>, Error>)
    requires
        old(r).wf(),
    ensures
        final(r).wf(),
        final(r).data() == old(r).data(),
        (uuids_of(res), final(r).at()) == read_uuid_list_at(old(r).data(), old(r).at()),
{
    let n: usize = r.var_len("uuid list", MAX_COLLECTION)?;
    let ghost from = r.at();
    let mut list: Vec<(u64, u64)> = Vec::with_capacity(n);
    assert(forall|s: Seq<(u64, u64)>| list@ + s =~= s);
    let mut i: usize = 0;
    while i < n
        invariant
            i <= n,
            r.wf(),
            r.data() == old(r).data(),
            read_uuid_list_at(old(r).data(), old(r).at()) == read_uuids_at(
                r.data(),
                from,
                n as nat,
            ),
            wire::after(list@, read_uuids_at(r.data(), r.at(), (n - i) as nat)) == read_uuids_at(
                r.data(),
                from,
                n as nat,
            ),
        decreases n - i,
    {
        let ghost before = list@;
        let uuid: (u64, u64) = r.uuid()?;
        list.push(uuid);
        i += 1;
        assert(forall|s: Seq<(u64, u64)>| before + (seq![uuid] + s) =~= before.push(uuid) + s);
    }
    assert(list@ + Seq::<(u64, u64)>::empty() =~= list@);
    Ok(list)
}

/// An entity of the world, as one sweep finds it.
#[derive(Clone, Copy, Debug, PartialEq, Eq)]
pub struct EntityInfo {
    pub uuid: (u64, u64),
    pub is_player: bool,
}

/// An entity that a packet named: its place in the packet's list, and its place in the sweep.
#[derive(Clone, Copy, Debug, PartialEq, Eq, Structural)]
pub struct Match {
    pub wanted: usize,
    pub entity: usize,
}

/// Where a UUID stands in a list, from `from` on.
pub open spec fn place_of(wanted: Seq<(u64, u64)>, uuid: (u64, u64), from: int) -> Option<int>
    decreases wanted.len() - from,
{
    if from >= wanted.len() {
        None
    } else if wanted[from] == uuid {
        Some(from)
    } else {
        place_of(wanted, uuid, from + 1)
    }
}

/// The entities of the sweep from `from` on that a packet named, in the order of the sweep.
pub open spec fn matches_from(
    world: Seq<EntityInfo>,
    wanted: Seq<(u64, u64)>,
    from: int,
) -> Seq<Match>
    decreases world.len() - from,
{
    if from >= world.len() {
        Seq::empty()
    } else {
        let rest = matches_from(world, wanted, from + 1);
        match place_of(wanted, world[from].uuid, 0) {
            Some(i) => seq![Match { wanted: i as usize, entity: from as usize }] + rest,
            None => rest,
        }
    }
}

/// The matches that are not players, in their order.
pub open spec fn no_players(world: Seq<EntityInfo>, matches: Seq<Match>) -> Seq<Match>
    decreases matches.len(),
{
    if matches.len() == 0 {
        Seq::empty()
    } else {
        let rest = no_players(world, matches.skip(1));
        if world[matches[0].entity as int].is_player {
            rest
        } else {
            seq![matches[0]] + rest
        }
    }
}

fn find(wanted: &Vec<(u64, u64)>, uuid: (u64, u64)) -> (r: Option<usize>)
    ensures
        match (r, place_of(wanted@, uuid, 0)) {
            (Some(i), Some(at)) => i == at && i < wanted@.len(),
            (None, None) => true,
            _ => false,
        },
{
    let mut i: usize = 0;
    while i < wanted.len()
        invariant
            i <= wanted@.len(),
            place_of(wanted@, uuid, i as int) == place_of(wanted@, uuid, 0),
        decreases wanted@.len() - i,
    {
        let id: (u64, u64) = wanted[i];
        if id.0 == uuid.0 && id.1 == uuid.1 {
            return Some(i);
        }
        i += 1;
    }
    None
}

/// Looks up the entities a packet named by UUID, in one sweep of the world.
///
/// There is no lookup by UUID, so the alternative would be a full sweep per requested entity.
pub fn entities_by_uuid(world: &Vec<EntityInfo>, wanted: &Vec<(u64, u64)>) -> (r: Vec<Match>)
    ensures
        r@ == matches_from(world@, wanted@, 0),
{
    let mut found: Vec<Match> = Vec::new();
    assert(found@ + matches_from(world@, wanted@, 0) =~= matches_from(world@, wanted@, 0));
    let mut i: usize = 0;
    while i < world.len()
        invariant
            i <= world@.len(),
            found@ + matches_from(world@, wanted@, i as int) == matches_from(world@, wanted@, 0),
        decreases world@.len() - i,
    {
        let ghost before = found@;
        let ghost rest = matches_from(world@, wanted@, i + 1);
        if let Some(k) = find(wanted, world[i].uuid) {
            let m = Match { wanted: k, entity: i };
            found.push(m);
            assert(before + (seq![m] + rest) =~= found@ + rest);
        }
        i += 1;
    }
    assert(found@ + Seq::<Match>::empty() =~= found@);
    found
}

proof fn lemma_matches(world: Seq<EntityInfo>, wanted: Seq<(u64, u64)>, from: int)
    requires
        0 <= from,
        world.len() <= usize::MAX,
        wanted.len() <= usize::MAX,
    ensures
        forall|i: int|
            0 <= i < matches_from(world, wanted, from).len() ==> {
                let m = #[trigger] matches_from(world, wanted, from)[i];
                &&& m.entity < world.len()
                &&& m.wanted < wanted.len()
                &&& wanted[m.wanted as int] == world[m.entity as int].uuid
            },
    decreases world.len() - from,
{
    if from < world.len() {
        let all = matches_from(world, wanted, from);
        let rest = matches_from(world, wanted, from + 1);
        lemma_matches(world, wanted, from + 1);
        lemma_place(wanted, world[from].uuid, 0);
        assert forall|i: int| 0 <= i < all.len() implies {
            let m = #[trigger] all[i];
            &&& m.entity < world.len()
            &&& m.wanted < wanted.len()
            &&& wanted[m.wanted as int] == world[m.entity as int].uuid
        } by {
            if place_of(wanted, world[from].uuid, 0) is Some {
                if i > 0 {
                    assert(all[i] == rest[i - 1]);
                }
            } else {
                assert(all[i] == rest[i]);
            }
        }
    }
}

proof fn lemma_place(wanted: Seq<(u64, u64)>, uuid: (u64, u64), from: int)
    requires
        0 <= from,
    ensures
        place_of(wanted, uuid, from) matches Some(i) ==> from <= i < wanted.len() && wanted[i]
            == uuid,
    decreases wanted.len() - from,
{
    if from < wanted.len() {
        lemma_place(wanted, uuid, from + 1);
    }
}

/// The entities a packet named by UUID that may be touched: never a player, which is never
/// what the tools mean.
pub fn editable(world: &Vec<EntityInfo>, wanted: &Vec<(u64, u64)>) -> (r: Vec<Match>)
    ensures
        r@ == no_players(world@, matches_from(world@, wanted@, 0)),
{
    let found = entities_by_uuid(world, wanted);
    proof {
        assert(world.len() == world@.len() && wanted.len() == wanted@.len());
        lemma_matches(world@, wanted@, 0);
    }
    let mut out: Vec<Match> = Vec::new();
    assert(found@.skip(0) =~= found@);
    assert(out@ + no_players(world@, found@) =~= no_players(world@, found@));
    let mut i: usize = 0;
    while i < found.len()
        invariant
            i <= found@.len(),
            forall|k: int| 0 <= k < found@.len() ==> (#[trigger] found@[k]).entity < world@.len(),
            out@ + no_players(world@, found@.skip(i as int)) == no_players(world@, found@),
        decreases found@.len() - i,
    {
        let ghost before = out@;
        let ghost left = found@.skip(i as int);
        let ghost rest = no_players(world@, left.skip(1));
        assert(left.skip(1) =~= found@.skip(i + 1));
        let m: Match = found[i];
        assert(found@[i as int].entity < world@.len());
        if !world[m.entity].is_player {
            out.push(m);
            assert(before + (seq![m] + rest) =~= out@ + rest);
        }
        i += 1;
    }
    assert(out@ + Seq::<Match>::empty() =~= out@);
    out
}

/// What is touched was named by the packet, and is no player.
pub proof fn law_only_named_entities_are_touched(
    world: Seq<EntityInfo>,
    wanted: Seq<(u64, u64)>,
    i: int,
)
    requires
        world.len() <= usize::MAX,
        wanted.len() <= usize::MAX,
        0 <= i < no_players(world, matches_from(world, wanted, 0)).len(),
    ensures
        ({
            let m = no_players(world, matches_from(world, wanted, 0))[i];
            &&& m.entity < world.len()
            &&& m.wanted < wanted.len()
            &&& wanted[m.wanted as int] == world[m.entity as int].uuid
            &&& !world[m.entity as int].is_player
        }),
{
    lemma_matches(world, wanted, 0);
    lemma_no_players(world, matches_from(world, wanted, 0), i);
}

proof fn lemma_no_players(world: Seq<EntityInfo>, matches: Seq<Match>, i: int)
    requires
        0 <= i < no_players(world, matches).len(),
    ensures
        matches.contains(no_players(world, matches)[i]),
        !world[no_players(world, matches)[i].entity as int].is_player,
    decreases matches.len(),
{
    let rest = matches.skip(1);
    let out = no_players(world, matches);
    let later = no_players(world, rest);
    let first = !world[matches[0].entity as int].is_player;
    if first && i == 0 {
        assert(matches[0] == out[0]);
    } else {
        let k = if first {
            i - 1
        } else {
            i
        };
        assert(out[i] == later[k]);
        lemma_no_players(world, rest, k);
        let j = choose|j: int| 0 <= j < rest.len() && rest[j] == later[k];
        assert(matches[j + 1] == out[i]);
    }
}

/// Which entities a packet deletes, where its player may.
pub open spec fn delete_asked(body: Seq<u8>, allowed: bool) -> Result<
    Option<Seq<(u64, u64)>>,
    Seq<char>,
> {
    match read_uuid_list_at(body, 0) {
        (Err(e), _) => handlers::reason(e),
        (Ok(wanted), _) => Ok(
            if allowed {
                Some(wanted)
            } else {
                None
            },
        ),
    }
}

/// `axiom:delete_entity` — which entities to delete.
pub fn delete_entity(body: &[u8], allowed: bool) -> (res: Result<Option<Vec<(u64, u64)>>, String>)
    ensures
        match (res, delete_asked(body@, allowed)) {
            (Ok(Some(list)), Ok(Some(wanted))) => list@ == wanted,
            (Ok(None), Ok(None)) => true,
            (Err(text), Err(why)) => text@ == why,
            _ => false,
        },
{
    let mut r = Reader::new(body);
    match read_uuid_list(&mut r) {
        Ok(wanted) => Ok(
            if allowed {
                Some(wanted)
            } else {
                None
            },
        ),
        Err(e) => Err(e.to_string()),
    }
}

/// Which entities a packet asks about, and the id to answer it under. Nothing is asked where
/// its player may not.
pub open spec fn entity_data_asked(body: Seq<u8>, allowed: bool) -> Result<
    (i64, Option<Seq<(u64, u64)>>),
    Seq<char>,
> {
    match wire::read_i64(body, 0) {
        (Err(e), _) => handlers::reason(e),
        (Ok(id), q) => if !allowed {
            Ok((id, None))
        } else {
            match read_uuid_list_at(body, q) {
                (Err(e), _) => handlers::reason(e),
                (Ok(wanted), _) => Ok((id, Some(wanted))),
            }
        },
    }
}

/// A request for the NBT of entities.
pub struct EntityRequest {
    /// The id to answer it under.
    pub id: i64,
    /// The entities asked about. As with chunk data, a refusal still has to be answered or the
    /// client waits.
    pub wanted: Option<Vec<(u64, u64)>>,
}

/// `axiom:request_entity_data` — the client asking for the NBT of entities it
/// wants to edit.
pub fn request_entity_data(body: &[u8], allowed: bool) -> (res: Result<EntityRequest, String>)
    ensures
        match (res, entity_data_asked(body@, allowed)) {
            (Ok(request), Ok((id, wanted))) => request.id == id && match (
                request.wanted,
                wanted,
            ) {
                (Some(list), Some(asked)) => list@ == asked,
                (None, None) => true,
                _ => false,
            },
            (Err(text), Err(why)) => text@ == why,
            _ => false,
        },
{
    let mut r = Reader::new(body);
    let id: i64 = match r.i64() {
        Ok(id) => id,
        Err(e) => return Err(e.to_string()),
    };
    if !allowed {
        return Ok(EntityRequest { id, wanted: None });
    }
    match read_uuid_list(&mut r) {
        Ok(wanted) => Ok(EntityRequest { id, wanted: Some(wanted) }),
        Err(e) => Err(e.to_string()),
    }
}

/// An entity with its NBT.
pub struct EntityData {
    pub uuid: (u64, u64),
    pub nbt: Vec<u8>,
}

/// An entity with its NBT, taken by its contents.
#[verifier::ext_equal]
pub struct DataView {
    pub uuid: (u64, u64),
    pub nbt: Seq<u8>,
}

impl View for EntityData {
    type V = DataView;

    open spec fn view(&self) -> DataView {
        DataView { uuid: self.uuid, nbt: self.nbt@ }
    }
}

/// Entities with their NBT, taken by their contents.
pub open spec fn data_views(entries: Seq<EntityData>) -> Seq<DataView> {
    Seq::new(entries.len(), |i: int| entries[i]@)
}

/// How much NBT entities have.
pub open spec fn nbt_len(entries: Seq<DataView>) -> nat
    decreases entries.len(),
{
    if entries.len() == 0 {
        0
    } else {
        nbt_len(entries.drop_last()) + entries.last().nbt.len()
    }
}

/// The batches that entities are sent in, one payload each: those before the last, and the
/// last, which is still open.
#[verifier::ext_equal]
pub struct BatchesView {
    pub sent: Seq<Seq<DataView>>,
    pub open: Seq<DataView>,
}

/// The batches with one more entity. One too big to share a payload with anything else has one
/// of its own; another goes into the open batch, or into a new one if it would not fit.
pub open spec fn with_data(b: BatchesView, entry: DataView) -> BatchesView {
    if entry.nbt.len() >= MAX_RESPONSE_BYTES {
        BatchesView { sent: b.sent.push(seq![entry]), ..b }
    } else if nbt_len(b.open) + entry.nbt.len() > MAX_RESPONSE_BYTES {
        BatchesView { sent: b.sent.push(b.open), open: seq![entry] }
    } else {
        BatchesView { open: b.open.push(entry), ..b }
    }
}

/// The batches that these entities are sent in.
pub open spec fn batched(entries: Seq<DataView>) -> BatchesView
    decreases entries.len(),
{
    if entries.len() == 0 {
        BatchesView { sent: Seq::empty(), open: Seq::empty() }
    } else {
        with_data(batched(entries.drop_last()), entries.last())
    }
}

/// Entities as they follow each other in a payload.
pub open spec fn data_bytes(entries: Seq<DataView>) -> Seq<u8>
    decreases entries.len(),
{
    if entries.len() == 0 {
        Seq::empty()
    } else {
        wire::uuid_bytes(entries[0].uuid.0, entries[0].uuid.1) + entries[0].nbt + data_bytes(
            entries.skip(1),
        )
    }
}

/// A payload: the id, whether the response is finished, and the entities.
pub open spec fn data_payload(id: i64, finished: bool, entries: Seq<DataView>) -> Seq<u8> {
    wire::i64_bytes(id) + wire::bool_bytes(finished) + wire::len_bytes(entries.len())
        + data_bytes(entries)
}

/// The payloads of a whole response.
pub open spec fn data_payloads(id: i64, b: BatchesView) -> Seq<Seq<u8>> {
    Seq::new(b.sent.len(), |i: int| data_payload(id, false, b.sent[i])).push(
        data_payload(id, true, b.open),
    )
}

fn encode_data(id: i64, finished: bool, entries: &Vec<EntityData>) -> (r: Vec<u8>)
    ensures
        r@ == data_payload(id, finished, data_views(entries@)),
{
    let ghost all = data_views(entries@);
    let mut w = Writer::new();
    w.i64(id);
    w.bool(finished);
    w.prefix(entries.len());
    let ghost head = w@;
    assert(all.skip(0) =~= all);
    let mut i: usize = 0;
    while i < entries.len()
        invariant
            i <= entries@.len(),
            all == data_views(entries@),
            w@ + data_bytes(all.skip(i as int)) == head + data_bytes(all),
        decreases entries@.len() - i,
    {
        let ghost before = w@;
        let entry = &entries[i];
        w.uuid(entry.uuid.0, entry.uuid.1);
        w.bytes(&entry.nbt);
        i += 1;
        proof {
            let left = all.skip(i - 1);
            assert(left.skip(1) =~= all.skip(i as int));
            assert(before + data_bytes(left) =~= w@ + data_bytes(all.skip(i as int)));
        }
    }
    let r = w.into_vec();
    assert(all.skip(i as int) =~= Seq::empty());
    assert(r@ =~= data_payload(id, finished, all));
    r
}

/// The payloads that answer a request with the NBT of the entities that were found for it.
pub fn entity_data(id: i64, entries: Vec<EntityData>) -> (r: Vec<Vec<u8>>)
    ensures
        crate::chunks::contents(r@) == data_payloads(id, batched(data_views(entries@))),
{
    let ghost all = data_views(entries@);
    let mut payloads: Vec<Vec<u8>> = Vec::new();
    let mut batch: Vec<EntityData> = Vec::new();
    let mut batch_bytes: usize = 0;
    let ghost mut sent = Seq::<Seq<DataView>>::empty();
    assert(data_views(batch@) =~= batched(all.take(0)).open);
    assert(crate::chunks::contents(payloads@) =~= unfinished(id, sent));
    for entry in it: entries
        invariant
            all == data_views(it.seq()),
            batched(all.take(it.index() as int)) == (BatchesView {
                sent,
                open: data_views(batch@),
            }),
            crate::chunks::contents(payloads@) == unfinished(id, sent),
            batch_bytes == nbt_len(data_views(batch@)),
            batch_bytes <= MAX_RESPONSE_BYTES,
    {
        let ghost i = it.index() as int;
        let ghost fresh = entry@;
        let ghost open = data_views(batch@);
        let ghost done = crate::chunks::contents(payloads@);
        proof {
            assert(all.take(i + 1).drop_last() =~= all.take(i));
            assert(all.take(i + 1).last() == fresh);
            reveal_with_fuel(nbt_len, 2);
        }
        let len: usize = entry.nbt.len();
        if len >= MAX_RESPONSE_BYTES {
            // Too big to share a payload with anything else.
            let alone: Vec<EntityData> = vec![entry];
            assert(data_views(alone@) =~= seq![fresh]);
            let bytes = encode_data(id, false, &alone);
            let ghost payload = bytes@;
            payloads.push(bytes);
            proof {
                assert(crate::chunks::contents(payloads@) =~= done.push(payload));
                assert(done.push(payload) =~= unfinished(id, sent.push(seq![fresh])));
                sent = sent.push(seq![fresh]);
            }
        } else {
            if batch_bytes + len > MAX_RESPONSE_BYTES {
                let bytes = encode_data(id, false, &batch);
                let ghost payload = bytes@;
                payloads.push(bytes);
                proof {
                    assert(crate::chunks::contents(payloads@) =~= done.push(payload));
                    assert(done.push(payload) =~= unfinished(id, sent.push(open)));
                    sent = sent.push(open);
                }
                batch = Vec::new();
                batch_bytes = 0;
            }
            let ghost before = data_views(batch@);
            batch_bytes += len;
            batch.push(entry);
            proof {
                assert(data_views(batch@) =~= before.push(fresh));
                assert(before.push(fresh).drop_last() =~= before);
                if before.len() == 0 {
                    assert(before.push(fresh) =~= seq![fresh]);
                }
            }
        }
    }
    assert(all.take(all.len() as int) =~= all);
    let ghost done = crate::chunks::contents(payloads@);
    let bytes = encode_data(id, true, &batch);
    let ghost payload = bytes@;
    payloads.push(bytes);
    assert(crate::chunks::contents(payloads@) =~= done.push(payload));
    payloads
}

/// Payloads that are not the last.
pub open spec fn unfinished(id: i64, sent: Seq<Seq<DataView>>) -> Seq<Seq<u8>> {
    Seq::new(sent.len(), |i: int| data_payload(id, false, sent[i]))
}

/// What batches carry, whatever the order.
pub open spec fn carried_in(sent: Seq<Seq<DataView>>) -> Multiset<DataView>
    decreases sent.len(),
{
    if sent.len() == 0 {
        Multiset::empty()
    } else {
        carried_in(sent.drop_last()).add(sent.last().to_multiset())
    }
}

/// What all batches carry, the open one too.
pub open spec fn carried(b: BatchesView) -> Multiset<DataView> {
    carried_in(b.sent).add(b.open.to_multiset())
}

proof fn lemma_push_multiset(s: Seq<DataView>, entry: DataView)
    ensures
        s.push(entry).to_multiset() =~= s.to_multiset().insert(entry),
{
    broadcast use vstd::seq_lib::group_to_multiset_ensures;

}

/// However entities are split across payloads, each is sent once.
pub proof fn law_every_entity_is_sent_once(entries: Seq<DataView>)
    ensures
        carried(batched(entries)) == entries.to_multiset(),
    decreases entries.len(),
{
    broadcast use vstd::seq_lib::group_to_multiset_ensures;

    let none = Seq::<DataView>::empty();
    assert(none.to_multiset() =~= Multiset::<DataView>::empty());
    if entries.len() == 0 {
        assert(entries =~= none);
        assert(carried(batched(entries)) =~= Multiset::<DataView>::empty());
    } else {
        let init = entries.drop_last();
        let entry = entries.last();
        let b = batched(init);
        let next = batched(entries);
        law_every_entity_is_sent_once(init);
        assert(entries =~= init.push(entry));
        lemma_push_multiset(init, entry);
        lemma_push_multiset(none, entry);
        lemma_push_multiset(b.open, entry);
        assert(none.push(entry) =~= seq![entry]);
        assert(b.sent.push(seq![entry]).drop_last() =~= b.sent);
        assert(b.sent.push(b.open).drop_last() =~= b.sent);
        assert(carried(next) =~= carried(b).insert(entry));
    }
}

/// A refused request is answered all the same, under its id, by one payload that is finished
/// and has nothing in it.
pub proof fn law_refusal_is_answered(body: Seq<u8>, id: i64)
    requires
        wire::read_i64(body, 0).0 == Ok::<i64, Error>(id),
    ensures
        entity_data_asked(body, false) == Ok::<(i64, Option<Seq<(u64, u64)>>), Seq<char>>(
            (id, None),
        ),
        data_payloads(id, batched(Seq::empty())) == seq![wire::i64_bytes(id) + seq![1u8, 0u8]],
{
    let none = Seq::<DataView>::empty();
    assert(data_payload(id, true, none) =~= wire::i64_bytes(id) + seq![1u8, 0u8]);
}

/// Whether a batch fits in a payload, or is a single entity that is too big to share one.
pub open spec fn batch_fits(batch: Seq<DataView>) -> bool {
    nbt_len(batch) <= MAX_RESPONSE_BYTES || batch.len() == 1
}

/// No batch holds more NBT than a payload may carry, but for one with a single entity.
pub proof fn law_batches_fit(entries: Seq<DataView>)
    ensures
        nbt_len(batched(entries).open) <= MAX_RESPONSE_BYTES,
        forall|i: int|
            0 <= i < batched(entries).sent.len() ==> batch_fits(#[trigger] batched(entries).sent[i]),
    decreases entries.len(),
{
    reveal_with_fuel(nbt_len, 2);
    if entries.len() > 0 {
        let b = batched(entries.drop_last());
        let next = batched(entries);
        let entry = entries.last();
        law_batches_fit(entries.drop_last());
        assert(b.open.push(entry).drop_last() =~= b.open);
        assert(seq![entry].drop_last() =~= Seq::<DataView>::empty());
        assert forall|i: int| 0 <= i < next.sent.len() implies batch_fits(#[trigger] next.sent[i]) by {
            if i < b.sent.len() {
                assert(batch_fits(b.sent[i]));
            }
        }
    }
}

/// Bits of the movement flag byte marking an axis as relative to where the entity
/// already is, matching vanilla's `Relative` packing.
pub const RELATIVE_X: u8 = 1;

pub const RELATIVE_Y: u8 = 2;

pub const RELATIVE_Z: u8 = 4;

pub const RELATIVE_YAW: u8 = 8;

pub const RELATIVE_PITCH: u8 = 16;

/// Where an entity is moved to, with every number as its bit pattern, and which of them are
/// relative to where it already is.
#[derive(Clone, Copy, Debug, PartialEq, Eq, Structural)]
pub struct Movement {
    pub relative_x: bool,
    pub relative_y: bool,
    pub relative_z: bool,
    pub relative_yaw: bool,
    pub relative_pitch: bool,
    pub x: u64,
    pub y: u64,
    pub z: u64,
    pub yaw: u32,
    pub pitch: u32,
}

/// What happens to those riding an entity.
pub enum PassengerChange {
    Keep,
    RemoveAll,
    Add(Vec<(u64, u64)>),
    Remove(Vec<(u64, u64)>),
}

/// What happens to those riding an entity, taken by its contents.
#[verifier::ext_equal]
pub enum PassengerView {
    Keep,
    RemoveAll,
    Add(Seq<(u64, u64)>),
    Remove(Seq<(u64, u64)>),
}

impl View for PassengerChange {
    type V = PassengerView;

    open spec fn view(&self) -> PassengerView {
        match *self {
            PassengerChange::Keep => PassengerView::Keep,
            PassengerChange::RemoveAll => PassengerView::RemoveAll,
            PassengerChange::Add(list) => PassengerView::Add(list@),
            PassengerChange::Remove(list) => PassengerView::Remove(list@),
        }
    }
}

/// What is done to one entity.
pub struct Manipulation {
    pub uuid: (u64, u64),
    pub movement: Option<Movement>,
    /// The NBT to merge into the entity, if any, with nothing in it that a client may not set.
    pub merge: Option<Vec<u8>>,
    pub passengers: PassengerChange,
}

/// What is done to one entity, taken by its contents.
#[verifier::ext_equal]
pub struct ManipulationView {
    pub uuid: (u64, u64),
    pub movement: Option<Movement>,
    pub merge: Option<Seq<u8>>,
    pub passengers: PassengerView,
}

impl View for Manipulation {
    type V = ManipulationView;

    open spec fn view(&self) -> ManipulationView {
        ManipulationView {
            uuid: self.uuid,
            movement: self.movement,
            merge: nbt::document(self.merge),
            passengers: self.passengers@,
        }
    }
}

/// Manipulations, taken by their contents.
pub open spec fn manipulation_views(list: Seq<Manipulation>) -> Seq<ManipulationView> {
    Seq::new(list.len(), |i: int| list[i]@)
}

/// Where an entity is moved to; a negative flag byte means "leave the entity where it is".
pub open spec fn read_movement_at(d: Seq<u8>, p: int) -> (Result<Option<Movement>, Error>, int) {
    match wire::read_i8(d, p) {
        (Err(e), q) => (Err(e), q),
        (Ok(n), q) => if n < 0 {
            (Ok(None), q)
        } else {
            let flags = n as u8;
            match wire::read_u64(d, q) {
                (Err(e), q2) => (Err(e), q2),
                (Ok(x), q2) => match wire::read_u64(d, q2) {
                    (Err(e), q3) => (Err(e), q3),
                    (Ok(y), q3) => match wire::read_u64(d, q3) {
                        (Err(e), q4) => (Err(e), q4),
                        (Ok(z), q4) => match wire::read_u32(d, q4) {
                            (Err(e), q5) => (Err(e), q5),
                            (Ok(yaw), q5) => match wire::read_u32(d, q5) {
                                (Err(e), q6) => (Err(e), q6),
                                (Ok(pitch), q6) => (
                                    Ok(
                                        Some(
                                            Movement {
                                                relative_x: flags & RELATIVE_X != 0,
                                                relative_y: flags & RELATIVE_Y != 0,
                                                relative_z: flags & RELATIVE_Z != 0,
                                                relative_yaw: flags & RELATIVE_YAW != 0,
                                                relative_pitch: flags & RELATIVE_PITCH != 0,
                                                x,
                                                y,
                                                z,
                                                yaw,
                                                pitch,
                                            },
                                        ),
                                    ),
                                    q6,
                                ),
                            },
                        },
                    },
                },
            }
        },
    }
}

/// What happens to those riding an entity.
pub open spec fn read_passengers_at(d: Seq<u8>, p: int) -> (
    Result<PassengerView, Seq<char>>,
    int,
) {
    match wire::read_var_i32(d, p) {
        (Err(e), q) => (handlers::reason(e), q),
        (Ok(kind), q) => if kind == 0 {
            (Ok(PassengerView::Keep), q)
        } else if kind == 1 {
            (Ok(PassengerView::RemoveAll), q)
        } else if kind == 2 || kind == 3 {
            match read_uuid_list_at(d, q) {
                (Err(e), q2) => (handlers::reason(e), q2),
                (Ok(list), q2) => (
                    Ok(
                        if kind == 2 {
                            PassengerView::Add(list)
                        } else {
                            PassengerView::Remove(list)
                        },
                    ),
                    q2,
                ),
            }
        } else {
            (
                Err("unknown passenger manipulation: "@ + text::signed_decimal(kind as int)),
                q,
            )
        },
    }
}

/// The NBT to merge into an entity: what a client may set of the tag it sent. An empty tag is a
/// single end marker and means "no NBT change", and so does a tag that no entity takes.
pub open spec fn merge_of(tag: Seq<u8>) -> Option<Seq<u8>> {
    if tag.len() <= 1 {
        None
    } else {
        match nbt::parsed_compound(tag) {
            Ok(fields) => match nbt::sanitized(fields) {
                (Ok(()), left) => Some(nbt::compound_bytes(left)),
                (Err(_), _) => None,
            },
            Err(_) => None,
        }
    }
}

/// What is done to one entity.
pub open spec fn read_manipulation_at(d: Seq<u8>, p: int) -> (
    Result<ManipulationView, Seq<char>>,
    int,
) {
    match wire::read_uuid(d, p) {
        (Err(e), q) => (handlers::reason(e), q),
        (Ok(uuid), q) => match read_movement_at(d, q) {
            (Err(e), q2) => (handlers::reason(e), q2),
            (Ok(movement), q2) => match nbt::read_network_tag(d, q2) {
                (Err(e), q3) => (handlers::reason(e), q3),
                (Ok(tag), q3) => match read_passengers_at(d, q3) {
                    (Err(why), q4) => (Err(why), q4),
                    (Ok(passengers), q4) => (
                        Ok(ManipulationView { uuid, movement, merge: merge_of(tag), passengers }),
                        q4,
                    ),
                },
            },
        },
    }
}

/// Manipulations that follow each other.
pub open spec fn read_manipulations_at(d: Seq<u8>, p: int, n: nat) -> (
    Result<Seq<ManipulationView>, Seq<char>>,
    int,
)
    decreases n,
{
    if n == 0 {
        (Ok(Seq::empty()), p)
    } else {
        match read_manipulation_at(d, p) {
            (Err(why), q) => (Err(why), q),
            (Ok(entry), q) => match read_manipulations_at(d, q, (n - 1) as nat) {
                (Err(why), q2) => (Err(why), q2),
                (Ok(rest), q2) => (Ok(seq![entry] + rest), q2),
            },
        }
    }
}

/// What a packet does to entities, where its player may.
pub open spec fn manipulations_asked(body: Seq<u8>, allowed: bool) -> Result<
    Option<Seq<ManipulationView>>,
    Seq<char>,
> {
    match wire::read_var_len(body, 0, "manipulate list", MAX_COLLECTION) {
        (Err(e), _) => handlers::reason(e),
        (Ok(n), q) => match read_manipulations_at(body, q, n as nat) {
            (Err(why), _) => Err(why),
            (Ok(list), _) => Ok(
                if allowed {
                    Some(list)
                } else {
                    None
                },
            ),
        },
    }
}

fn read_movement(r: &mut Reader<'_>) -> (res: Result<Option<Movement>, Error>)
    requires
        old(r).wf(),
    ensures
        final(r).wf(),
        final(r).data() == old(r).data(),
        (res, final(r).at()) == read_movement_at(old(r).data(), old(r).at()),
{
    let n: i8 = r.i8()?;
    if n < 0 {
        return Ok(None);
    }
    let flags: u8 = n as u8;
    let x: u64 = r.f64_bits()?;
    let y: u64 = r.f64_bits()?;
    let z: u64 = r.f64_bits()?;
    let yaw: u32 = r.f32_bits()?;
    let pitch: u32 = r.f32_bits()?;
    Ok(
        Some(
            Movement {
                relative_x: flags & RELATIVE_X != 0,
                relative_y: flags & RELATIVE_Y != 0,
                relative_z: flags & RELATIVE_Z != 0,
                relative_yaw: flags & RELATIVE_YAW != 0,
                relative_pitch: flags & RELATIVE_PITCH != 0,
                x,
                y,
                z,
                yaw,
                pitch,
            },
        ),
    )
}

fn read_passengers(r: &mut Reader<'_>) -> (res: Result<PassengerChange, String>)
    requires
        old(r).wf(),
    ensures
        final(r).wf(),
        final(r).data() == old(r).data(),
        match (res, read_passengers_at(old(r).data(), old(r).at())) {
            (Ok(change), (Ok(read), q)) => change@ == read && final(r).at() == q,
            (Err(text), (Err(why), _)) => text@ == why,
            _ => false,
        },
{
    let kind: i32 = match r.var_i32() {
        Ok(kind) => kind,
        Err(e) => return Err(e.to_string()),
    };
    if kind == 0 {
        return Ok(PassengerChange::Keep);
    }
    if kind == 1 {
        return Ok(PassengerChange::RemoveAll);
    }
    if kind != 2 && kind != 3 {
        let mut out = String::new();
        out.append("unknown passenger manipulation: ");
        text::push_signed_decimal(&mut out, kind as i64);
        return Err(out);
    }
    let list = match read_uuid_list(r) {
        Ok(list) => list,
        Err(e) => return Err(e.to_string()),
    };
    Ok(
        if kind == 2 {
            PassengerChange::Add(list)
        } else {
            PassengerChange::Remove(list)
        },
    )
}

/// What is merged into an entity can be read, and holds nothing that a client may not set, at
/// any level.
pub proof fn law_merge_is_clean(tag: Seq<u8>)
    ensures
        merge_of(tag) matches Some(left) ==> (nbt::parsed_compound(left) matches Ok(fields)
            && nbt_laws::clean(fields)),
{
    if let Ok(fields) = nbt::parsed_compound(tag) {
        if let (Ok(()), left) = nbt::sanitized(fields) {
            nbt_laws::law_compound_written_back(tag);
            nbt_laws::law_sanitized_fits(fields, 1);
            nbt_laws::law_sanitized_is_clean(fields);
            nbt_laws::law_compound_round_trip(left);
        }
    }
}

fn clean_merge(tag: &[u8]) -> (res: Option<Vec<u8>>)
    ensures
        nbt::document(res) == merge_of(tag@),
{
    if tag.len() <= 1 {
        return None;
    }
    let mut fields = match nbt::read_compound(tag) {
        Ok(fields) => fields,
        Err(_) => return None,
    };
    match nbt::sanitize_entity(&mut fields) {
        Ok(()) => Some(nbt::write_compound(&fields)),
        Err(_) => None,
    }
}

fn read_manipulation(r: &mut Reader<'_>) -> (res: Result<Manipulation, String>)
    requires
        old(r).wf(),
    ensures
        final(r).wf(),
        final(r).data() == old(r).data(),
        match (res, read_manipulation_at(old(r).data(), old(r).at())) {
            (Ok(entry), (Ok(read), q)) => entry@ == read && final(r).at() == q,
            (Err(text), (Err(why), _)) => text@ == why,
            _ => false,
        },
{
    let uuid: (u64, u64) = match r.uuid() {
        Ok(uuid) => uuid,
        Err(e) => return Err(e.to_string()),
    };
    let movement: Option<Movement> = match read_movement(r) {
        Ok(movement) => movement,
        Err(e) => return Err(e.to_string()),
    };
    let tag = match nbt::take_network_tag(r) {
        Ok(tag) => tag,
        Err(e) => return Err(e.to_string()),
    };
    let merge = clean_merge(tag);
    let passengers = read_passengers(r)?;
    Ok(Manipulation { uuid, movement, merge, passengers })
}

/// `axiom:manipulate_entity` — move, rotate, re-NBT or re-seat existing entities.
#[verifier::spinoff_prover]
pub fn manipulate_entity(body: &[u8], allowed: bool) -> (res: Result<
    Option<Vec<Manipulation>>,
    String,
>)
    ensures
        match (res, manipulations_asked(body@, allowed)) {
            (Ok(Some(list)), Ok(Some(asked))) => manipulation_views(list@) == asked,
            (Ok(None), Ok(None)) => true,
            (Err(text), Err(why)) => text@ == why,
            _ => false,
        },
{
    let mut r = Reader::new(body);
    let n: usize = match r.var_len("manipulate list", MAX_COLLECTION) {
        Ok(n) => n,
        Err(e) => return Err(e.to_string()),
    };
    let ghost from = r.at();
    let mut list: Vec<Manipulation> = Vec::new();
    assert(forall|s: Seq<ManipulationView>| manipulation_views(list@) + s =~= s);
    let mut i: usize = 0;
    while i < n
        invariant
            i <= n,
            r.wf(),
            r.data() == body@,
            wire::read_var_len(body@, 0, "manipulate list", MAX_COLLECTION) == (
                Ok::<usize, Error>(n),
                from,
            ),
            wire::after(
                manipulation_views(list@),
                read_manipulations_at(body@, r.at(), (n - i) as nat),
            ) == read_manipulations_at(body@, from, n as nat),
        decreases n - i,
    {
        let ghost before = manipulation_views(list@);
        let entry = read_manipulation(&mut r)?;
        let ghost fresh = entry@;
        list.push(entry);
        i += 1;
        proof {
            assert(manipulation_views(list@) =~= before.push(fresh));
            wire::lemma_after_push(
                before,
                fresh,
                read_manipulations_at(body@, r.at(), (n - i) as nat),
            );
        }
    }
    assert(manipulation_views(list@) + Seq::<ManipulationView>::empty() =~= manipulation_views(
        list@,
    ));
    Ok(
        if allowed {
            Some(list)
        } else {
            None
        },
    )
}

} // verus!
