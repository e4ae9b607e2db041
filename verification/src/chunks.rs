//! Chunk data: serving a client world data it cannot see itself, which is what makes copying
//! beyond render distance work.

use vstd::prelude::*;
use vstd::string::*;

use crate::buf::{Error, Reader, Writer};
use crate::edits::MIN_POSITION_LONG;
use crate::handlers;
use crate::handlers::MAX_COLLECTION;
use crate::nbt;
use crate::palette;
use crate::palette::SECTION_VOLUME;
use crate::wire;
use crate::zstd;

verus! {

/// One clientbound payload may carry a mebibyte; this leaves some leeway.
pub const MAX_RESPONSE_BYTES: usize = 1024 * 1024 - 64;

/// Sections served per request. An unbounded request would stall the server tick; a partial
/// answer is legitimate.
pub const MAX_SECTIONS_PER_REQUEST: usize = 128;

/// Numbers of eight bytes that follow each other.
pub open spec fn read_keys_at(d: Seq<u8>, p: int, n: nat) -> (Result<Seq<i64>, Error>, int)
    decreases n,
{
    if n == 0 {
        (Ok(Seq::empty()), p)
    } else {
        match wire::read_i64(d, p) {
            (Err(e), q) => (Err(e), q),
            (Ok(key), q) => match read_keys_at(d, q, (n - 1) as nat) {
                (Err(e), q2) => (Err(e), q2),
                (Ok(rest), q2) => (Ok(seq![key] + rest), q2),
            },
        }
    }
}

/// A list of keys with its length in front.
pub open spec fn read_key_list_at(d: Seq<u8>, p: int, what: &'static str) -> (
    Result<Seq<i64>, Error>,
    int,
) {
    match wire::read_var_len(d, p, what, MAX_COLLECTION) {
        (Err(e), q) => (Err(e), q),
        (Ok(n), q) => read_keys_at(d, q, n as nat),
    }
}

/// What a client asks for.
#[verifier::ext_equal]
pub struct WantedView {
    /// The packed positions of block entities.
    pub entities: Seq<i64>,
    /// The packed places of sections.
    pub sections: Seq<i64>,
}

/// As many sections as a request is served, from the first on.
pub open spec fn first_sections(keys: Seq<i64>) -> Seq<i64> {
    if keys.len() <= MAX_SECTIONS_PER_REQUEST {
        keys
    } else {
        keys.take(MAX_SECTIONS_PER_REQUEST as int)
    }
}

/// What a request asks for: the id to answer it under, and what is to be served. Nothing is
/// where its player may not ask, or asks for another world than the one they are in, and no
/// block entities are where they may not ask for those.
pub open spec fn chunks_asked(
    body: Seq<u8>,
    allowed: bool,
    entities_allowed: bool,
    dimension: Seq<char>,
) -> Result<(i64, Option<WantedView>), Seq<char>> {
    match wire::read_i64(body, 0) {
        (Err(e), _) => handlers::reason(e),
        (Ok(id), q) => if !allowed {
            Ok((id, None))
        } else {
            match wire::read_string(body, q) {
                (Err(e), _) => handlers::reason(e),
                (Ok(wanted), q2) => match wire::read_bool(body, q2) {
                    (Err(e), _) => handlers::reason(e),
                    (Ok(_), q3) => match read_key_list_at(body, q3, "block entity list") {
                        (Err(e), _) => handlers::reason(e),
                        (Ok(entities), q4) => match read_key_list_at(body, q4, "section list") {
                            (Err(e), _) => handlers::reason(e),
                            (Ok(sections), _) => Ok(
                                (
                                    id,
                                    if handlers::bare(dimension) == handlers::bare(wanted) {
                                        Some(
                                            WantedView {
                                                entities: if entities_allowed {
                                                    entities
                                                } else {
                                                    Seq::empty()
                                                },
                                                sections: first_sections(sections),
                                            },
                                        )
                                    } else {
                                        None
                                    },
                                ),
                            ),
                        },
                    },
                },
            }
        },
    }
}

/// What reading keys says, with the keys taken by their contents.
pub open spec fn keys_of(r: Result<Vec<i64>, Error>) -> Result<Seq<i64>, Error> {
    match r {
        Ok(keys) => Ok(keys@),
        Err(e) => Err(e),
    }
}

fn read_key_list(r: &mut Reader<'_>, what: &'static str) -> (res: Result<Vec<i64>, Error>)
    requires
        old(r).wf(),
    ensures
        final(r).wf(),
        final(r).data() == old(r).data(),
        (keys_of(res), final(r).at()) == read_key_list_at(old(r).data(), old(r).at(), what),
{
    let n: usize = r.var_len(what, MAX_COLLECTION)?;
    let ghost from = r.at();
    let mut keys: Vec<i64> = Vec::new();
    assert(forall|s: Seq<i64>| keys@ + s =~= s);
    let mut i: usize = 0;
    while i < n
        invariant
            i <= n,
            r.wf(),
            r.data() == old(r).data(),
            read_key_list_at(old(r).data(), old(r).at(), what) == read_keys_at(
                r.data(),
                from,
                n as nat,
            ),
            wire::after(keys@, read_keys_at(r.data(), r.at(), (n - i) as nat)) == read_keys_at(
                r.data(),
                from,
                n as nat,
            ),
        decreases n - i,
    {
        let ghost before = keys@;
        let key: i64 = r.i64()?;
        keys.push(key);
        i += 1;
        assert(forall|s: Seq<i64>| before + (seq![key] + s) =~= before.push(key) + s);
    }
    assert(keys@ + Seq::<i64>::empty() =~= keys@);
    Ok(keys)
}

/// What a client asks for.
pub struct Wanted {
    /// The packed positions of block entities.
    pub entities: Vec<i64>,
    /// The packed places of sections.
    pub sections: Vec<i64>,
}

/// A request for chunk data.
pub struct ChunkRequest {
    /// The id to answer it under.
    pub id: i64,
    /// What is to be served. The client waits on a response for every request, so one that is
    /// refused still has to be answered — just with nothing in it.
    pub wanted: Option<Wanted>,
}

/// `axiom:request_chunk_data` — what the client asks for.
pub fn request_chunk_data(
    body: &[u8],
    allowed: bool,
    entities_allowed: bool,
    dimension: &str,
) -> (res: Result<ChunkRequest, String>)
    ensures
        match (res, chunks_asked(body@, allowed, entities_allowed, dimension@)) {
            (Ok(request), Ok((id, wanted))) => request.id == id && match (
                request.wanted,
                wanted,
            ) {
                (Some(read), Some(asked)) => read.entities@ == asked.entities && read.sections@
                    == asked.sections,
                (None, None) => true,
                _ => false,
            },
            (Err(text), Err(why)) => text@ == why,
            _ => false,
        },
{
    let mut r = Reader::new(body);
    let id: i64 = match r.i64() {
        Ok(id) => id,
        Err(e) => return Err(e.to_string()),
    };
    if !allowed {
        return Ok(ChunkRequest { id, wanted: None });
    }
    let wanted = match r.string() {
        Ok(wanted) => wanted,
        Err(e) => return Err(e.to_string()),
    };
    if let Err(e) = r.bool() {
        return Err(e.to_string());
    }
    let listed = match read_key_list(&mut r, "block entity list") {
        Ok(keys) => keys,
        Err(e) => return Err(e.to_string()),
    };
    let mut sections = match read_key_list(&mut r, "section list") {
        Ok(keys) => keys,
        Err(e) => return Err(e.to_string()),
    };
    if !handlers::same_dimension(dimension, wanted) {
        return Ok(ChunkRequest { id, wanted: None });
    }
    let ghost all = sections@;
    if sections.len() > MAX_SECTIONS_PER_REQUEST {
        sections.truncate(MAX_SECTIONS_PER_REQUEST);
    }
    assert(sections@ =~= first_sections(all));
    let entities: Vec<i64> = if entities_allowed { listed } else { Vec::new() };
    Ok(ChunkRequest { id, wanted: Some(Wanted { entities, sections }) })
}

/// What closes a list.
pub open spec fn sentinel() -> Seq<u8> {
    wire::i64_bytes(MIN_POSITION_LONG)
}

/// What one payload of a response carries.
#[verifier::ext_equal]
pub struct Batch {
    pub entities: Seq<u8>,
    pub sections: Seq<u8>,
}

/// A payload of a response: the id, a block entity list and a section list, each closed by a
/// sentinel, then whether the response is finished.
pub open spec fn payload(id: i64, batch: Batch, finished: bool) -> Seq<u8> {
    wire::i64_bytes(id) + batch.entities + sentinel() + batch.sections + sentinel()
        + wire::bool_bytes(finished)
}

/// A response that is being put together.
#[verifier::ext_equal]
pub struct ResponseView {
    pub id: i64,
    /// What the payloads before this one carry.
    pub sent: Seq<Batch>,
    /// What this payload carries so far.
    pub open: Batch,
    /// Whether the block entity list is still open.
    pub entities_open: bool,
}

/// The bytes of the payload that is being put together.
pub open spec fn open_bytes(r: ResponseView) -> Seq<u8> {
    if r.entities_open {
        wire::i64_bytes(r.id) + r.open.entities
    } else {
        wire::i64_bytes(r.id) + r.open.entities + sentinel() + r.open.sections
    }
}

/// Nothing yet.
pub open spec fn nothing() -> Batch {
    Batch { entities: Seq::empty(), sections: Seq::empty() }
}

/// The response once this payload was closed.
pub open spec fn flushed(r: ResponseView) -> ResponseView {
    ResponseView { sent: r.sent.push(r.open), open: nothing(), ..r }
}

/// The response with one more entry, in a new payload if it would not fit.
pub open spec fn with_entry(r: ResponseView, entry: Seq<u8>) -> ResponseView {
    let r = if open_bytes(r).len() + entry.len() > MAX_RESPONSE_BYTES {
        flushed(r)
    } else {
        r
    };
    if r.entities_open {
        ResponseView {
            open: Batch { entities: r.open.entities + entry, ..r.open },
            ..r
        }
    } else {
        ResponseView {
            open: Batch { sections: r.open.sections + entry, ..r.open },
            ..r
        }
    }
}

/// The response with more entries.
pub open spec fn with_entries(r: ResponseView, entries: Seq<Seq<u8>>) -> ResponseView
    decreases entries.len(),
{
    if entries.len() == 0 {
        r
    } else {
        with_entries(with_entry(r, entries[0]), entries.skip(1))
    }
}

/// The batches of a whole response.
pub open spec fn batches(id: i64, entities: Seq<Seq<u8>>, sections: Seq<Seq<u8>>) -> Seq<Batch> {
    let start = ResponseView {
        id,
        sent: Seq::empty(),
        open: nothing(),
        entities_open: true,
    };
    let middle = with_entries(start, entities);
    flushed(with_entries(ResponseView { entities_open: false, ..middle }, sections)).sent
}

/// The payloads of a whole response: one per batch, the last of them finished.
pub open spec fn payloads(id: i64, all: Seq<Batch>) -> Seq<Seq<u8>> {
    Seq::new(all.len(), |i: int| payload(id, all[i], i == all.len() - 1))
}

/// Payloads that are not the last.
pub open spec fn unfinished(id: i64, all: Seq<Batch>) -> Seq<Seq<u8>> {
    Seq::new(all.len(), |i: int| payload(id, all[i], false))
}

/// Byte strings, taken by their contents.
pub open spec fn contents(parts: Seq<Vec<u8>>) -> Seq<Seq<u8>> {
    Seq::new(parts.len(), |i: int| parts[i]@)
}

/// Accumulates a chunk data response, splitting it across payloads as it fills.
///
/// The wire shape is a block entity list, then a section list, each closed by a
/// sentinel, then a "finished" flag. A split has to close whichever lists are
/// still open before sending, and the continuation reopens at the same point —
/// which is the whole reason this is a type rather than inline code.
pub struct ChunkResponse {
    id: i64,
    buf: Writer,
    entities_open: bool,
    sent: Vec<Vec<u8>>,
    open: Ghost<ResponseView>,
}

impl View for ChunkResponse {
    type V = ResponseView;

    closed spec fn view(&self) -> ResponseView {
        self.open@
    }
}

impl ChunkResponse {
    /// The bytes are those of the response they stand for.
    pub closed spec fn wf(&self) -> bool {
        &&& self.id == self@.id
        &&& self.entities_open == self@.entities_open
        &&& self.entities_open ==> self@.open.sections.len() == 0
        &&& self.buf@ == open_bytes(self@)
        &&& contents(self.sent@) == unfinished(self@.id, self@.sent)
    }

    pub fn new(id: i64) -> (r: Self)
        ensures
            r.wf(),
            r@ == (ResponseView {
                id,
                sent: Seq::empty(),
                open: nothing(),
                entities_open: true,
            }),
    {
        let mut buf = Writer::new();
        buf.i64(id);
        let ghost open = ResponseView {
            id,
            sent: Seq::empty(),
            open: nothing(),
            entities_open: true,
        };
        let r = ChunkResponse {
            id,
            buf,
            entities_open: true,
            sent: Vec::new(),
            open: Ghost(open),
        };
        assert(r.buf@ =~= open_bytes(open));
        assert(contents(r.sent@) =~= unfinished(id, open.sent));
        r
    }

    /// Appends one already-encoded entry, starting a new payload if it would not fit.
    pub fn push(&mut self, entry: &[u8])
        requires
            old(self).wf(),
        ensures
            final(self).wf(),
            final(self)@ == with_entry(old(self)@, entry@),
    {
        let used: usize = self.buf.len();
        if used > MAX_RESPONSE_BYTES || entry.len() > MAX_RESPONSE_BYTES - used {
            self.flush(false);
        }
        self.buf.bytes(entry);
        proof {
            let open = self.open@;
            self.open@ = if open.entities_open {
                ResponseView {
                    open: Batch { entities: open.open.entities + entry@, ..open.open },
                    ..open
                }
            } else {
                ResponseView {
                    open: Batch { sections: open.open.sections + entry@, ..open.open },
                    ..open
                }
            };
            assert(self.buf@ =~= open_bytes(self@));
            assert(self@ =~= with_entry(old(self)@, entry@));
        }
    }

    /// Closes the block entity list and moves on to sections.
    pub fn end_entities(&mut self)
        requires
            old(self).wf(),
            old(self)@.entities_open,
        ensures
            final(self).wf(),
            final(self)@ == (ResponseView { entities_open: false, ..old(self)@ }),
    {
        self.buf.i64(MIN_POSITION_LONG);
        self.entities_open = false;
        proof {
            self.open@ = ResponseView { entities_open: false, ..self.open@ };
            assert(self.buf@ =~= open_bytes(self@));
        }
    }

    fn flush(&mut self, finished: bool)
        requires
            old(self).wf(),
        ensures
            final(self).id == old(self).id,
            final(self)@ == flushed(old(self)@),
            contents(final(self).sent@) == unfinished(old(self)@.id, old(self)@.sent).push(
                payload(old(self)@.id, old(self)@.open, finished),
            ),
            !finished ==> final(self).wf(),
    {
        let ghost before = self@;
        if self.entities_open {
            self.buf.i64(MIN_POSITION_LONG);
        }
        self.buf.i64(MIN_POSITION_LONG);
        self.buf.bool(finished);
        let mut next = Writer::new();
        next.i64(self.id);
        if !self.entities_open {
            // Block entities were already closed; the continuation says so again.
            next.i64(MIN_POSITION_LONG);
        }
        std::mem::swap(&mut self.buf, &mut next);
        let bytes = next.into_vec();
        let ghost fresh = bytes@;
        let ghost done = contents(self.sent@);
        assert(fresh =~= payload(before.id, before.open, finished));
        self.sent.push(bytes);
        proof {
            self.open@ = flushed(before);
            assert(contents(self.sent@) =~= done.push(fresh));
            assert(self.buf@ =~= open_bytes(self@));
            assert(unfinished(before.id, before.sent).push(payload(before.id, before.open, false))
                =~= unfinished(before.id, flushed(before).sent));
        }
    }

    /// The payloads of the response.
    pub fn finish(self) -> (r: Vec<Vec<u8>>)
        requires
            self.wf(),
        ensures
            contents(r@) == payloads(self@.id, flushed(self@).sent),
    {
        let ghost before = self@;
        let mut whole = self;
        whole.flush(true);
        proof {
            let all = flushed(before).sent;
            assert(contents(whole.sent@) =~= payloads(before.id, all));
        }
        whole.sent
    }
}

/// A block entity that was looked up: its packed position, and its NBT in the network form
/// where its chunk is loaded and it is there.
pub struct FoundEntity {
    pub key: i64,
    pub nbt: Option<Vec<u8>>,
}

/// A section that was looked up: its packed place, and where its chunk is loaded, the states
/// the chunk has for it, if any.
pub struct FoundSection {
    pub key: i64,
    pub loaded: Option<Option<Vec<u16>>>,
}

/// The entry of a block entity: its place, its size, the dictionary, and its NBT under an empty
/// root name in a raw frame. What is no compound has none.
pub open spec fn entity_entry(key: i64, found: Option<Seq<u8>>) -> Option<Seq<u8>> {
    match found {
        None => None,
        Some(bytes) => match nbt::named(bytes) {
            None => None,
            Some(named) => Some(
                wire::i64_bytes(key) + wire::len_bytes(named.len())
                    + seq![nbt::SUPPORTED_DICTIONARY] + wire::sized_bytes(
                    zstd::raw_frame(named),
                ),
            ),
        },
    }
}

/// The states of a section that are worth sending: a section that is outside the world or
/// entirely air is answered as "no data" rather than 4096 copies of air.
pub open spec fn worth_sending(states: Option<Seq<u16>>) -> Option<Seq<u16>> {
    match states {
        Some(ids) if ids.len() == SECTION_VOLUME && exists|i: int|
            0 <= i < ids.len() && #[trigger] ids[i] != 0 => Some(ids),
        _ => None,
    }
}

/// The entry of a section whose chunk is loaded: its place, whether there is data, and the
/// data. One that is too varied for a palette has none.
pub open spec fn section_entry(key: i64, states: Option<Seq<u16>>) -> Option<Seq<u8>> {
    match worth_sending(states) {
        None => Some(wire::i64_bytes(key) + wire::bool_bytes(false)),
        Some(ids) => if palette::distinct(ids).len() <= palette::MAX_INDIRECT_PALETTE {
            Some(wire::i64_bytes(key) + wire::bool_bytes(true) + palette::indirect_bytes(ids))
        } else {
            None
        },
    }
}

/// States, taken by their contents.
pub open spec fn states_of(states: Option<Vec<u16>>) -> Option<Seq<u16>> {
    match states {
        Some(ids) => Some(ids@),
        None => None,
    }
}

/// The entries of block entities that were looked up.
pub open spec fn entity_entries(found: Seq<FoundEntity>) -> Seq<Seq<u8>>
    decreases found.len(),
{
    if found.len() == 0 {
        Seq::empty()
    } else {
        let rest = entity_entries(found.skip(1));
        match entity_entry(found[0].key, nbt::document(found[0].nbt)) {
            Some(entry) => seq![entry] + rest,
            None => rest,
        }
    }
}

/// The entries of sections that were looked up. One whose chunk is not loaded has none: the
/// client keeps whatever it already had for it.
pub open spec fn section_entries(found: Seq<FoundSection>) -> Seq<Seq<u8>>
    decreases found.len(),
{
    if found.len() == 0 {
        Seq::empty()
    } else {
        let rest = section_entries(found.skip(1));
        match found[0].loaded {
            None => rest,
            Some(states) => match section_entry(found[0].key, states_of(states)) {
                Some(entry) => seq![entry] + rest,
                None => rest,
            },
        }
    }
}

fn encode_entity(key: i64, found: &Option<Vec<u8>>) -> (r: Option<Vec<u8>>)
    ensures
        nbt::document(r) == entity_entry(key, nbt::document(*found)),
{
    let bytes = match found {
        Some(bytes) => bytes,
        None => return None,
    };
    let named = match nbt::to_named_root(bytes) {
        Some(named) => named,
        None => return None,
    };
    let mut w = Writer::new();
    w.i64(key);
    w.prefix(named.len());
    w.u8(nbt::SUPPORTED_DICTIONARY);
    w.byte_array(&nbt::compress_raw(&named));
    let r = w.into_vec();
    assert(r@ =~= entity_entry(key, nbt::document(*found))->Some_0);
    Some(r)
}

/// The states of a section that are worth sending.
///
/// Returns `None` for a section that is outside the world or entirely air; the
/// response encodes that as "no data" rather than 4096 copies of air.
pub fn section_for_client(states: &Option<Vec<u16>>) -> (r: Option<&Vec<u16>>)
    ensures
        match (r, worth_sending(states_of(*states))) {
            (Some(ids), Some(worth)) => ids@ == worth,
            (None, None) => true,
            _ => false,
        },
{
    let ids = match states {
        Some(ids) => ids,
        None => return None,
    };
    if ids.len() != SECTION_VOLUME {
        return None;
    }
    let mut i: usize = 0;
    while i < ids.len()
        invariant
            i <= ids@.len(),
            ids@.len() == SECTION_VOLUME,
            states_of(*states) == Some(ids@),
            forall|k: int| 0 <= k < i ==> #[trigger] ids@[k] == 0,
        decreases ids@.len() - i,
    {
        if ids[i] != 0 {
            assert(ids@[i as int] != 0);
            return Some(ids);
        }
        i += 1;
    }
    None
}

fn encode_section(key: i64, states: &Option<Vec<u16>>) -> (r: Option<Vec<u8>>)
    ensures
        nbt::document(r) == section_entry(key, states_of(*states)),
{
    let mut w = Writer::new();
    w.i64(key);
    match section_for_client(states) {
        Some(ids) => {
            w.bool(true);
            if !palette::write_section_indirect(&mut w, ids) {
                return None;
            }
            let r = w.into_vec();
            assert(r@ =~= section_entry(key, states_of(*states))->Some_0);
            Some(r)
        },
        None => {
            w.bool(false);
            let r = w.into_vec();
            assert(r@ =~= section_entry(key, states_of(*states))->Some_0);
            Some(r)
        },
    }
}

/// The payloads that answer a request: the block entities and sections that were looked up for
/// it, or nothing where it was refused.
pub fn respond(id: i64, entities: &Vec<FoundEntity>, sections: &Vec<FoundSection>) -> (r: Vec<
    Vec<u8>,
>)
    ensures
        contents(r@) == payloads(
            id,
            batches(id, entity_entries(entities@), section_entries(sections@)),
        ),
{
    let mut response = ChunkResponse::new(id);
    let ghost start = response@;
    let mut i: usize = 0;
    assert(entities@.skip(0) =~= entities@);
    while i < entities.len()
        invariant
            i <= entities@.len(),
            response.wf(),
            response@.id == id,
            response@.entities_open,
            with_entries(response@, entity_entries(entities@.skip(i as int))) == with_entries(
                start,
                entity_entries(entities@),
            ),
        decreases entities@.len() - i,
    {
        let ghost left = entities@.skip(i as int);
        let ghost rest = entity_entries(left.skip(1));
        assert(left.skip(1) =~= entities@.skip(i + 1));
        if let Some(entry) = encode_entity(entities[i].key, &entities[i].nbt) {
            response.push(&entry);
            assert((seq![entry@] + rest).skip(1) =~= rest);
        }
        i += 1;
    }
    assert(with_entries(start, entity_entries(entities@)) == response@);
    response.end_entities();
    let ghost middle = response@;
    let mut k: usize = 0;
    assert(sections@.skip(0) =~= sections@);
    while k < sections.len()
        invariant
            k <= sections@.len(),
            response.wf(),
            response@.id == id,
            with_entries(response@, section_entries(sections@.skip(k as int))) == with_entries(
                middle,
                section_entries(sections@),
            ),
        decreases sections@.len() - k,
    {
        let ghost left = sections@.skip(k as int);
        let ghost rest = section_entries(left.skip(1));
        assert(left.skip(1) =~= sections@.skip(k + 1));
        if let Some(states) = &sections[k].loaded {
            if let Some(entry) = encode_section(sections[k].key, states) {
                response.push(&entry);
                assert((seq![entry@] + rest).skip(1) =~= rest);
            }
        }
        k += 1;
    }
    assert(with_entries(middle, section_entries(sections@)) == response@);
    response.finish()
}

/// Byte strings put one behind the other.
pub open spec fn joined(parts: Seq<Seq<u8>>) -> Seq<u8>
    decreases parts.len(),
{
    if parts.len() == 0 {
        Seq::empty()
    } else {
        parts[0] + joined(parts.skip(1))
    }
}

/// What the batches carry of block entities, one behind the other.
pub open spec fn entities_in(all: Seq<Batch>) -> Seq<u8>
    decreases all.len(),
{
    if all.len() == 0 {
        Seq::empty()
    } else {
        entities_in(all.drop_last()) + all.last().entities
    }
}

/// What the batches carry of sections, one behind the other.
pub open spec fn sections_in(all: Seq<Batch>) -> Seq<u8>
    decreases all.len(),
{
    if all.len() == 0 {
        Seq::empty()
    } else {
        sections_in(all.drop_last()) + all.last().sections
    }
}

proof fn lemma_with_entries(r: ResponseView, entries: Seq<Seq<u8>>)
    requires
        r.entities_open ==> r.open.sections.len() == 0,
    ensures
        ({
            let end = with_entries(r, entries);
            let before = flushed(r).sent;
            let after = flushed(end).sent;
            &&& end.id == r.id
            &&& end.entities_open == r.entities_open
            &&& end.entities_open ==> end.open.sections.len() == 0
            &&& r.entities_open ==> entities_in(after) == entities_in(before) + joined(entries)
                && sections_in(after) == sections_in(before)
            &&& !r.entities_open ==> sections_in(after) == sections_in(before) + joined(entries)
                && entities_in(after) == entities_in(before)
        }),
    decreases entries.len(),
{
    let before = flushed(r).sent;
    assert(before.drop_last() =~= r.sent);
    if entries.len() == 0 {
        assert(entities_in(before) + joined(entries) =~= entities_in(before));
        assert(sections_in(before) + joined(entries) =~= sections_in(before));
    } else {
        let entry = entries[0];
        let rest = entries.skip(1);
        let next = with_entry(r, entry);
        let after = flushed(next).sent;
        assert(after.drop_last() =~= next.sent);
        lemma_with_entries(next, rest);
        if r.entities_open {
            assert(entities_in(after) =~= entities_in(before) + entry);
            assert(sections_in(after) =~= sections_in(before));
            assert(entities_in(before) + entry + joined(rest) =~= entities_in(before) + joined(
                entries,
            ));
        } else {
            assert(sections_in(after) =~= sections_in(before) + entry);
            assert(entities_in(after) =~= entities_in(before));
            assert(sections_in(before) + entry + joined(rest) =~= sections_in(before) + joined(
                entries,
            ));
        }
    }
}

/// However a response is split, its payloads carry every block entity and every section, each
/// once and in order; there is at least one payload, and only the last of them is finished.
pub proof fn law_response_is_complete(
    id: i64,
    entities: Seq<Seq<u8>>,
    sections: Seq<Seq<u8>>,
)
    ensures
        batches(id, entities, sections).len() >= 1,
        entities_in(batches(id, entities, sections)) == joined(entities),
        sections_in(batches(id, entities, sections)) == joined(sections),
{
    let start = ResponseView {
        id,
        sent: Seq::empty(),
        open: nothing(),
        entities_open: true,
    };
    reveal_with_fuel(entities_in, 2);
    reveal_with_fuel(sections_in, 2);
    let middle = with_entries(start, entities);
    let reopened = ResponseView { entities_open: false, ..middle };
    lemma_with_entries(start, entities);
    lemma_with_entries(reopened, sections);
    assert(flushed(start).sent.drop_last() =~= Seq::<Batch>::empty());
    assert(entities_in(flushed(start).sent) =~= Seq::<u8>::empty());
    assert(sections_in(flushed(start).sent) =~= Seq::<u8>::empty());
    assert(Seq::<u8>::empty() + joined(entities) =~= joined(entities));
    assert(Seq::<u8>::empty() + joined(sections) =~= joined(sections));
}

/// The dimension that a request names.
pub open spec fn dimension_named(body: Seq<u8>) -> Result<Seq<char>, Error> {
    wire::read_string(body, wire::read_i64(body, 0).1).0
}

/// A refused request is answered all the same, under its id, by one payload that is finished
/// and has nothing in it. Refused is a request whose player may not ask, and one that names
/// another dimension than the one they are in.
pub proof fn law_refusal_is_answered(
    body: Seq<u8>,
    id: i64,
    entities_allowed: bool,
    dimension: Seq<char>,
)
    requires
        wire::read_i64(body, 0).0 == Ok::<i64, Error>(id),
    ensures
        chunks_asked(body, false, entities_allowed, dimension) == Ok::<
            (i64, Option<WantedView>),
            Seq<char>,
        >((id, None)),
        chunks_asked(body, true, entities_allowed, dimension) matches Ok((answered, wanted)) ==> {
            &&& answered == id
            &&& dimension_named(body) is Ok
            &&& wanted is None <==> handlers::bare(dimension) != handlers::bare(
                dimension_named(body)->Ok_0,
            )
        },
        payloads(id, batches(id, Seq::empty(), Seq::empty())) == seq![
            wire::i64_bytes(id) + sentinel() + sentinel() + seq![1u8],
        ],
{
    let all = batches(id, Seq::empty(), Seq::empty());
    assert(all =~= seq![nothing()]);
    assert(payload(id, nothing(), true) =~= wire::i64_bytes(id) + sentinel() + sentinel()
        + seq![1u8]);
}

/// How long the payload of a batch is.
pub open spec fn payload_len(batch: Batch) -> nat {
    8 + batch.entities.len() + 8 + batch.sections.len() + 8 + 1
}

/// Whether a batch fits in a payload with what closes it, or carries no more than the longest
/// entry.
pub open spec fn fits(batch: Batch, longest: nat) -> bool {
    payload_len(batch) <= MAX_RESPONSE_BYTES + 17 || batch.entities.len() + batch.sections.len()
        <= longest
}

proof fn lemma_entries_fit(r: ResponseView, entries: Seq<Seq<u8>>, longest: nat)
    requires
        r.entities_open ==> r.open.sections.len() == 0,
        fits(r.open, longest),
        forall|i: int| 0 <= i < r.sent.len() ==> fits(#[trigger] r.sent[i], longest),
        forall|i: int| 0 <= i < entries.len() ==> (#[trigger] entries[i]).len() <= longest,
    ensures
        ({
            let end = with_entries(r, entries);
            &&& fits(end.open, longest)
            &&& forall|i: int| 0 <= i < end.sent.len() ==> fits(#[trigger] end.sent[i], longest)
        }),
    decreases entries.len(),
{
    if entries.len() > 0 {
        let entry = entries[0];
        let rest = entries.skip(1);
        let next = with_entry(r, entry);
        wire::lemma_to_be_len(wire::unsigned(r.id as int, 0x1_0000_0000_0000_0000) as nat, 8);
        wire::lemma_to_be_len(
            wire::unsigned(MIN_POSITION_LONG as int, 0x1_0000_0000_0000_0000) as nat,
            8,
        );
        assert forall|i: int| 0 <= i < rest.len() implies (#[trigger] rest[i]).len()
            <= longest by {
            assert(rest[i] == entries[i + 1]);
        }
        assert forall|i: int| 0 <= i < next.sent.len() implies fits(
            #[trigger] next.sent[i],
            longest,
        ) by {
            if i < r.sent.len() {
                assert(fits(r.sent[i], longest));
            }
        }
        lemma_entries_fit(next, rest, longest);
    }
}

/// No payload is longer than one may be, but for what closes it, and but for one that carries
/// no more than the longest entry.
pub proof fn law_payloads_fit(
    id: i64,
    entities: Seq<Seq<u8>>,
    sections: Seq<Seq<u8>>,
    longest: nat,
    k: int,
)
    requires
        forall|i: int| 0 <= i < entities.len() ==> (#[trigger] entities[i]).len() <= longest,
        forall|i: int| 0 <= i < sections.len() ==> (#[trigger] sections[i]).len() <= longest,
        0 <= k < batches(id, entities, sections).len(),
    ensures
        fits(batches(id, entities, sections)[k], longest),
{
    let start = ResponseView {
        id,
        sent: Seq::empty(),
        open: nothing(),
        entities_open: true,
    };
    let middle = with_entries(start, entities);
    let reopened = ResponseView { entities_open: false, ..middle };
    lemma_with_entries(start, entities);
    lemma_entries_fit(start, entities, longest);
    lemma_entries_fit(reopened, sections, longest);
}

} // verus!
