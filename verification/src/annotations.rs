//! Shared annotations — Axiom's collaborative drawing layer.
//!
//! The server never needs to understand what an annotation *is*; it stores the
//! encoded body and relays it to everyone in the world. Only the move and rotate
//! actions reach inside, and only for the two kinds that carry a position, so the
//! bodies are kept as bytes and patched in place rather than modelled.

use vstd::prelude::*;
use vstd::slice::slice_to_vec;
use vstd::string::*;

use crate::buf;
use crate::buf::{Error, Reader, Writer};
use crate::fields;
use crate::fields::Part;
use crate::text;
use crate::wire;

verus! {

/// Whether clients may share annotations at all.
pub const ENABLED: bool = true;

/// Guards against a client filling the server's memory with drawings.
pub const MAX_ANNOTATIONS: usize = 4096;

/// Offsets and point lists are bounded so a malformed body cannot make us
/// allocate; the values themselves are never interpreted here.
pub const MAX_POINTS: usize = 1024 * 1024;

/// How long a position is: three floats.
pub const POSITION_BYTES: usize = 12;

/// How long a rotation is: four floats.
pub const ROTATION_BYTES: usize = 16;

/// What an annotation of each kind is made of, behind its type byte.
pub open spec fn layout(kind: u8) -> Option<Seq<Part>> {
    if kind == 0 {
        // Line: quantised start, width, colour, packed offsets.
        Some(seq![Part::Var, Part::Var, Part::Var, Part::Raw(4), Part::Raw(4), Part::Bytes(MAX_POINTS)])
    } else if kind == 1 {
        // Text: the string, transform, facing, then styling.
        Some(
            seq![
                Part::Text,
                Part::Raw(28),
                Part::Raw(1),
                Part::Raw(4),
                Part::Raw(4),
                Part::Raw(1),
                Part::Raw(4),
                Part::Raw(1),
            ],
        )
    } else if kind == 2 {
        // Image: the url, transform, facing, then size and opacity.
        Some(
            seq![
                Part::Text,
                Part::Raw(28),
                Part::Raw(1),
                Part::Raw(4),
                Part::Raw(4),
                Part::Raw(4),
                Part::Raw(1),
            ],
        )
    } else if kind == 3 {
        // Freehand outline: start, count, colour, packed offsets.
        Some(seq![Part::Var, Part::Var, Part::Var, Part::Var, Part::Raw(4), Part::Bytes(MAX_POINTS)])
    } else if kind == 4 {
        // Lines outline: packed positions, then colour.
        Some(seq![Part::Items("outline positions", MAX_POINTS), Part::Raw(4)])
    } else if kind == 5 {
        // Box outline: two corners and a colour.
        Some(
            seq![Part::Var, Part::Var, Part::Var, Part::Var, Part::Var, Part::Var, Part::Raw(4)],
        )
    } else {
        None
    }
}

/// One encoded annotation: the bytes it spans, its type byte first.
pub open spec fn body_at(d: Seq<u8>, p: int) -> (Result<Seq<u8>, Error>, int) {
    match wire::read_u8(d, p) {
        (Ok(kind), q) => match layout(kind) {
            Some(parts) => match fields::past_parts(d, q, parts) {
                (Ok(()), q2) => (Ok(d.subrange(p, q2)), q2),
                (Err(e), q2) => (Err(e), q2),
            },
            None => (
                Err(Error::TooLarge { what: "annotation type", len: kind as usize, max: 5 }),
                q,
            ),
        },
        (Err(e), q) => (Err(e), q),
    }
}

/// Where an annotation body keeps its position and rotation, if it has them.
///
/// Both text and image annotations store three floats of position followed by four
/// of rotation, immediately after a leading string.
pub open spec fn transform_at(body: Seq<u8>) -> Option<int> {
    match wire::read_u8(body, 0) {
        (Ok(kind), q) => if kind == 1 || kind == 2 {
            match wire::read_string(body, q) {
                (Ok(_), q2) => if body.len() >= q2 + POSITION_BYTES + ROTATION_BYTES {
                    Some(q2)
                } else {
                    None
                },
                _ => None,
            }
        } else {
            None
        },
        _ => None,
    }
}

/// Where an annotation body keeps its position and rotation, if it has them.
///
/// Only text (1) and image (2) carry a transform; the others ignore move and rotate.
pub fn positioned_offset(body: &[u8]) -> (r: Option<usize>)
    ensures
        match (r, transform_at(body@)) {
            (Some(offset), Some(at)) => offset == at && at + POSITION_BYTES + ROTATION_BYTES
                <= body@.len(),
            (None, None) => true,
            _ => false,
        },
{
    let mut r = Reader::new(body);
    let kind: u8 = match r.u8() {
        Ok(kind) => kind,
        Err(_) => return None,
    };
    if kind != 1 && kind != 2 {
        return None;
    }
    if r.string().is_err() {
        return None;
    }
    let offset: usize = r.position();
    if r.remaining() >= POSITION_BYTES + ROTATION_BYTES {
        Some(offset)
    } else {
        None
    }
}

fn layout_of(kind: u8) -> (r: Option<Vec<Part>>)
    ensures
        match (r, layout(kind)) {
            (Some(parts), Some(known)) => parts@ == known,
            (None, None) => true,
            _ => false,
        },
{
    let r: Option<Vec<Part>> = match kind {
        0 => Some(
            vec![Part::Var, Part::Var, Part::Var, Part::Raw(4), Part::Raw(4), Part::Bytes(MAX_POINTS)],
        ),
        1 => Some(
            vec![
                Part::Text,
                Part::Raw(28),
                Part::Raw(1),
                Part::Raw(4),
                Part::Raw(4),
                Part::Raw(1),
                Part::Raw(4),
                Part::Raw(1),
            ],
        ),
        2 => Some(
            vec![
                Part::Text,
                Part::Raw(28),
                Part::Raw(1),
                Part::Raw(4),
                Part::Raw(4),
                Part::Raw(4),
                Part::Raw(1),
            ],
        ),
        3 => Some(
            vec![Part::Var, Part::Var, Part::Var, Part::Var, Part::Raw(4), Part::Bytes(MAX_POINTS)],
        ),
        4 => Some(vec![Part::Items("outline positions", MAX_POINTS), Part::Raw(4)]),
        5 => Some(
            vec![Part::Var, Part::Var, Part::Var, Part::Var, Part::Var, Part::Var, Part::Raw(4)],
        ),
        _ => None,
    };
    proof {
        if r is Some {
            assert(r->Some_0@ =~= layout(kind)->Some_0);
        }
    }
    r
}

/// Consumes one encoded annotation body and returns the bytes it spans.
pub fn take_body<'a>(r: &mut Reader<'a>) -> (res: Result<&'a [u8], Error>)
    requires
        old(r).wf(),
    ensures
        final(r).wf(),
        final(r).data() == old(r).data(),
        (buf::bytes_of(res), final(r).at()) == body_at(old(r).data(), old(r).at()),
{
    let start: usize = r.position();
    let kind: u8 = r.u8()?;
    let parts = match layout_of(kind) {
        Some(parts) => parts,
        None => return Err(
            Error::TooLarge { what: "annotation type", len: kind as usize, max: 5 },
        ),
    };
    proof {
        fields::lemma_parts_forward(r.data(), r.at(), parts@);
    }
    fields::skip_parts(r, &parts)?;
    r.since(start)
}

/// An annotation, taken by its contents.
#[verifier::ext_equal]
pub struct AnnotationView {
    pub uuid: (u64, u64),
    pub body: Seq<u8>,
}

pub struct Annotation {
    pub uuid: (u64, u64),
    /// The encoded annotation, starting with its type byte.
    pub body: Vec<u8>,
}

impl View for Annotation {
    type V = AnnotationView;

    open spec fn view(&self) -> AnnotationView {
        AnnotationView { uuid: self.uuid, body: self.body@ }
    }
}

/// Annotations, taken by their contents.
pub open spec fn views(annotations: Seq<Annotation>) -> Seq<AnnotationView> {
    Seq::new(annotations.len(), |i: int| annotations[i]@)
}

/// The annotations without those of one id.
pub open spec fn without(annotations: Seq<AnnotationView>, uuid: (u64, u64)) -> Seq<
    AnnotationView,
> {
    annotations.filter(|a: AnnotationView| a.uuid != uuid)
}

/// Where the first annotation of one id stands, from `from` on.
pub open spec fn place_of(
    annotations: Seq<AnnotationView>,
    uuid: (u64, u64),
    from: int,
) -> Option<int>
    decreases annotations.len() - from,
{
    if from >= annotations.len() {
        None
    } else if annotations[from].uuid == uuid {
        Some(from)
    } else {
        place_of(annotations, uuid, from + 1)
    }
}

/// A byte string with a part of it overwritten.
pub open spec fn patched(body: Seq<u8>, at: int, value: Seq<u8>) -> Seq<u8> {
    body.take(at) + value + body.skip(at + value.len())
}

/// The annotations with the transform of one of them overwritten from byte `shift` on. Where
/// there is no such annotation, or it has no transform, nothing changes.
pub open spec fn moved(
    annotations: Seq<AnnotationView>,
    uuid: (u64, u64),
    shift: int,
    value: Seq<u8>,
) -> Seq<AnnotationView> {
    match place_of(annotations, uuid, 0) {
        None => annotations,
        Some(i) => match transform_at(annotations[i].body) {
            None => annotations,
            Some(at) => annotations.update(
                i,
                AnnotationView {
                    body: patched(annotations[i].body, at + shift, value),
                    ..annotations[i]
                },
            ),
        },
    }
}

/// The text of an action that there is none of.
pub open spec fn unknown_action_text(action: u8) -> Seq<char> {
    "unknown annotation action: "@ + text::decimal(action as nat)
}

/// What one action does: the annotations behind it and whether it is relayed, or the text of
/// the error; and where the next action starts.
pub open spec fn acted(annotations: Seq<AnnotationView>, d: Seq<u8>, p: int) -> (
    Result<(Seq<AnnotationView>, bool), Seq<char>>,
    int,
) {
    match wire::read_u8(d, p) {
        (Err(e), q) => (Err(buf::error_text(e)), q),
        (Ok(action), q) => if action == 3 {
            (Ok((Seq::empty(), true)), q)
        } else if action > 4 {
            (Err(unknown_action_text(action)), q)
        } else {
            match wire::read_uuid(d, q) {
                (Err(e), q2) => (Err(buf::error_text(e)), q2),
                (Ok(uuid), q2) => if action == 0 {
                    match body_at(d, q2) {
                        (Err(e), q3) => (Err(buf::error_text(e)), q3),
                        (Ok(body), q3) => if annotations.len() >= MAX_ANNOTATIONS {
                            (Ok((annotations, false)), q3)
                        } else {
                            (
                                Ok(
                                    (
                                        without(annotations, uuid).push(
                                            AnnotationView { uuid, body },
                                        ),
                                        true,
                                    ),
                                ),
                                q3,
                            )
                        },
                    }
                } else if action == 1 {
                    (Ok((without(annotations, uuid), true)), q2)
                } else {
                    let (width, shift) = if action == 2 {
                        (POSITION_BYTES as int, 0int)
                    } else {
                        (ROTATION_BYTES as int, POSITION_BYTES as int)
                    };
                    match wire::take(d, q2, width) {
                        (Err(e), q3) => (Err(buf::error_text(e)), q3),
                        (Ok(value), q3) => (
                            Ok((moved(annotations, uuid, shift, value), true)),
                            q3,
                        ),
                    }
                },
            }
        },
    }
}

/// What `n` actions do: the bytes to relay and how many actions they are, or the text of the
/// first error; and the annotations they leave behind, an error or not.
pub open spec fn acted_all(annotations: Seq<AnnotationView>, d: Seq<u8>, p: int, n: nat) -> (
    Result<(Seq<u8>, nat), Seq<char>>,
    Seq<AnnotationView>,
)
    decreases n,
{
    if n == 0 {
        (Ok((Seq::empty(), 0)), annotations)
    } else {
        match acted(annotations, d, p) {
            (Err(why), _) => (Err(why), annotations),
            (Ok((next, relayed)), q) => match acted_all(next, d, q, (n - 1) as nat) {
                (Err(why), end) => (Err(why), end),
                (Ok((bytes, count)), end) => if relayed {
                    (Ok((d.subrange(p, q) + bytes, count + 1)), end)
                } else {
                    (Ok((bytes, count)), end)
                },
            },
        }
    }
}

/// What a batch of actions does: what to send to everyone in the world, if anything, or the
/// text of the error; and the annotations it leaves behind.
pub open spec fn updated(annotations: Seq<AnnotationView>, body: Seq<u8>) -> (
    Result<Option<Seq<u8>>, Seq<char>>,
    Seq<AnnotationView>,
) {
    match wire::read_var_len(body, 0, "annotation actions", MAX_ANNOTATIONS) {
        (Err(e), _) => (Err(buf::error_text(e)), annotations),
        (Ok(n), q) => match acted_all(annotations, body, q, n as nat) {
            (Err(why), end) => (Err(why), end),
            (Ok((bytes, count)), end) => if count == 0 {
                (Ok(None), end)
            } else {
                (Ok(Some(wire::var_i32_bytes(count as i32) + bytes)), end)
            },
        },
    }
}

/// The annotations as actions that create them.
pub open spec fn creations(annotations: Seq<AnnotationView>) -> Seq<u8>
    decreases annotations.len(),
{
    if annotations.len() == 0 {
        Seq::empty()
    } else {
        let a = annotations[0];
        seq![0u8] + wire::uuid_bytes(a.uuid.0, a.uuid.1) + a.body + creations(annotations.skip(1))
    }
}

/// The whole state of a world: clear, then one create per annotation.
pub open spec fn whole_state(annotations: Seq<AnnotationView>) -> Seq<u8> {
    wire::var_i32_bytes((annotations.len() + 1) as i32) + seq![3u8] + creations(annotations)
}

fn remove_all(annotations: &mut Vec<Annotation>, uuid: (u64, u64))
    ensures
        views(final(annotations)@) == without(views(old(annotations)@), uuid),
{
    let mut all = Vec::new();
    std::mem::swap(annotations, &mut all);
    let ghost from = views(all@);
    assert(views(annotations@) =~= without(from.take(0), uuid)) by {
        reveal(Seq::filter);
    }
    for annotation in it: all
        invariant
            from == views(it.seq()),
            views(annotations@) == without(from.take(it.index() as int), uuid),
    {
        let ghost i = it.index() as int;
        let ghost before = views(annotations@);
        let ghost a = annotation@;
        proof {
            reveal(Seq::filter);
            assert(from.take(i + 1).drop_last() =~= from.take(i));
            assert(from.take(i + 1).last() == a);
        }
        if annotation.uuid.0 != uuid.0 || annotation.uuid.1 != uuid.1 {
            annotations.push(annotation);
            assert(views(annotations@) =~= before.push(a));
        }
    }
    assert(from.take(from.len() as int) =~= from);
}

fn find(annotations: &Vec<Annotation>, uuid: (u64, u64)) -> (r: Option<usize>)
    ensures
        match (r, place_of(views(annotations@), uuid, 0)) {
            (Some(i), Some(at)) => i == at && i < annotations@.len(),
            (None, None) => true,
            _ => false,
        },
{
    let ghost all = views(annotations@);
    let mut i: usize = 0;
    while i < annotations.len()
        invariant
            i <= annotations@.len(),
            all == views(annotations@),
            place_of(all, uuid, i as int) == place_of(all, uuid, 0),
        decreases annotations@.len() - i,
    {
        if annotations[i].uuid.0 == uuid.0 && annotations[i].uuid.1 == uuid.1 {
            return Some(i);
        }
        i += 1;
    }
    None
}

/// Overwrites a part of a byte string.
fn patch(body: &mut Vec<u8>, at: usize, value: &[u8])
    requires
        at + value@.len() <= old(body)@.len(),
    ensures
        final(body)@ == patched(old(body)@, at as int, value@),
{
    let mut i: usize = 0;
    while i < value.len()
        invariant
            i <= value@.len(),
            at + value@.len() <= body.len(),
            body@.len() == old(body)@.len(),
            forall|k: int|
                0 <= k < body@.len() ==> #[trigger] body@[k] == if at <= k < at + i {
                    value@[k - at]
                } else {
                    old(body)@[k]
                },
        decreases value@.len() - i,
    {
        body.set(at + i, value[i]);
        i += 1;
    }
    assert(body@ =~= patched(old(body)@, at as int, value@));
}

fn move_one(annotations: &mut Vec<Annotation>, uuid: (u64, u64), shift: usize, value: &[u8])
    requires
        shift + value@.len() <= POSITION_BYTES + ROTATION_BYTES,
    ensures
        views(final(annotations)@) == moved(views(old(annotations)@), uuid, shift as int, value@),
{
    let ghost before = views(annotations@);
    if let Some(i) = find(annotations, uuid) {
        if let Some(offset) = positioned_offset(&annotations[i].body) {
            let ghost old_body = annotations@[i as int].body@;
            assert(offset + shift <= annotations@[i as int].body.len());
            patch(&mut annotations[i].body, offset + shift, value);
            assert(views(annotations@) =~= before.update(
                i as int,
                AnnotationView {
                    body: patched(old_body, offset + shift, value@),
                    ..before[i as int]
                },
            ));
        }
    }
}

fn unknown_action(action: u8) -> (r: String)
    ensures
        r@ == unknown_action_text(action),
{
    let mut out = String::new();
    out.append("unknown annotation action: ");
    text::push_decimal(&mut out, action as u128);
    out
}

/// Applies one action, and says whether it is to be relayed.
fn act(annotations: &mut Vec<Annotation>, r: &mut Reader<'_>) -> (res: Result<bool, String>)
    requires
        old(r).wf(),
    ensures
        final(r).wf(),
        final(r).data() == old(r).data(),
        match acted(views(old(annotations)@), old(r).data(), old(r).at()) {
            (Ok((next, relayed)), q) => res == Ok::<bool, String>(relayed) && views(
                final(annotations)@,
            ) == next && final(r).at() == q,
            (Err(why), _) => res matches Err(text) && text@ == why && views(final(annotations)@)
                == views(old(annotations)@),
        },
{
    let action: u8 = match r.u8() {
        Ok(action) => action,
        Err(e) => return Err(e.to_string()),
    };
    if action == 3 {
        annotations.clear();
        assert(views(annotations@) =~= Seq::<AnnotationView>::empty());
        return Ok(true);
    }
    if action > 4 {
        return Err(unknown_action(action));
    }
    let uuid: (u64, u64) = match r.uuid() {
        Ok(uuid) => uuid,
        Err(e) => return Err(e.to_string()),
    };
    if action == 0 {
        let body = match take_body(r) {
            Ok(body) => slice_to_vec(body),
            Err(e) => return Err(e.to_string()),
        };
        if annotations.len() >= MAX_ANNOTATIONS {
            return Ok(false);
        }
        remove_all(annotations, uuid);
        let ghost left = views(annotations@);
        let ghost fresh = AnnotationView { uuid, body: body@ };
        annotations.push(Annotation { uuid, body });
        assert(views(annotations@) =~= left.push(fresh));
    } else if action == 1 {
        remove_all(annotations, uuid);
    } else {
        let width: usize = if action == 2 { POSITION_BYTES } else { ROTATION_BYTES };
        let shift: usize = if action == 2 { 0 } else { POSITION_BYTES };
        let value = match r.take(width) {
            Ok(value) => value,
            Err(e) => return Err(e.to_string()),
        };
        move_one(annotations, uuid, shift, value);
    }
    Ok(true)
}

/// Puts what was relayed so far in front of what is still to come.
spec fn after_actions(
    done: Seq<u8>,
    count: nat,
    step: (Result<(Seq<u8>, nat), Seq<char>>, Seq<AnnotationView>),
) -> (Result<(Seq<u8>, nat), Seq<char>>, Seq<AnnotationView>) {
    match step {
        (Ok((bytes, n)), end) => (Ok((done + bytes, count + n)), end),
        (Err(why), end) => (Err(why), end),
    }
}

/// `axiom:annotation_update` — a batch of create/delete/move/rotate/clear actions.
///
/// Returns what to send to everyone in the world, if anything was accepted: exactly the
/// bytes we accepted, so every client ends up with the same state we hold.
pub fn handle(annotations: &mut Vec<Annotation>, body: &[u8]) -> (res: Result<
    Option<Vec<u8>>,
    String,
>)
    ensures
        views(final(annotations)@) == updated(views(old(annotations)@), body@).1,
        match (res, updated(views(old(annotations)@), body@).0) {
            (Ok(Some(payload)), Ok(Some(bytes))) => payload@ == bytes,
            (Ok(None), Ok(None)) => true,
            (Err(text), Err(why)) => text@ == why,
            _ => false,
        },
{
    let mut r = Reader::new(body);
    let count: usize = match r.var_len("annotation actions", MAX_ANNOTATIONS) {
        Ok(count) => count,
        Err(e) => return Err(e.to_string()),
    };
    let ghost from = r.at();
    let ghost start = views(annotations@);
    let mut applied = Writer::new();
    let mut applied_count: usize = 0;
    proof {
        wire::lemma_groups_forward(body@, 0, 5);
        assert(forall|s: Seq<u8>| applied@ + s =~= s);
    }
    let mut i: usize = 0;
    while i < count
        invariant
            i <= count <= MAX_ANNOTATIONS,
            applied_count <= i,
            r.wf(),
            r.data() == body@,
            wire::read_var_len(body@, 0, "annotation actions", MAX_ANNOTATIONS) == (
                Ok::<usize, Error>(count),
                from,
            ),
            start == views(old(annotations)@),
            after_actions(
                applied@,
                applied_count as nat,
                acted_all(views(annotations@), body@, r.at(), (count - i) as nat),
            ) == acted_all(start, body@, from, count as nat),
        decreases count - i,
    {
        let ghost before = applied@;
        let ghost here = r.at();
        let at: usize = r.position();
        proof {
            lemma_action_forward(views(annotations@), body@, here);
        }
        let relayed: bool = act(annotations, &mut r)?;
        if relayed {
            let bytes = match r.since(at) {
                Ok(bytes) => bytes,
                Err(e) => return Err(e.to_string()),
            };
            applied.bytes(bytes);
            applied_count += 1;
            assert(forall|s: Seq<u8>| before + (bytes@ + s) =~= (before + bytes@) + s);
        }
        i += 1;
    }
    assert(applied@ + Seq::<u8>::empty() =~= applied@);
    if applied_count == 0 {
        return Ok(None);
    }
    let mut payload = Writer::new();
    payload.var_i32(applied_count as i32);
    payload.bytes(applied.into_vec().as_slice());
    let sent = payload.into_vec();
    assert(sent@ =~= updated(start, body@).0->Ok_0->Some_0);
    Ok(Some(sent))
}

/// An action ends inside the buffer, behind where it starts.
pub proof fn lemma_action_forward(annotations: Seq<AnnotationView>, d: Seq<u8>, p: int)
    requires
        0 <= p <= d.len(),
    ensures
        acted(annotations, d, p).0 is Ok ==> p < acted(annotations, d, p).1 <= d.len(),
{
    if p < d.len() && d[p] != 3 && d[p] <= 4 {
        if let (Ok(_), q2) = wire::read_uuid(d, p + 1) {
            if d[p] == 0 && q2 < d.len() {
                if let Some(parts) = layout(d[q2]) {
                    fields::lemma_parts_forward(d, q2 + 1, parts);
                }
            }
        }
    }
}

/// Sends a player the whole current state: clear, then one create per annotation.
pub fn send_all(annotations: &Vec<Annotation>) -> (r: Vec<u8>)
    requires
        annotations@.len() < 0x7fff_ffff,
    ensures
        r@ == whole_state(views(annotations@)),
{
    let ghost all = views(annotations@);
    let mut w = Writer::new();
    w.var_i32((annotations.len() + 1) as i32);
    // Action 3 clears whatever the client was holding.
    w.u8(3);
    let ghost head = w@;
    assert(all.skip(0) =~= all);
    let mut i: usize = 0;
    while i < annotations.len()
        invariant
            i <= annotations@.len(),
            all == views(annotations@),
            w@ + creations(all.skip(i as int)) == head + creations(all),
        decreases annotations@.len() - i,
    {
        let ghost before = w@;
        let annotation = &annotations[i];
        w.u8(0);
        w.uuid(annotation.uuid.0, annotation.uuid.1);
        w.bytes(&annotation.body);
        i += 1;
        proof {
            let left = all.skip(i - 1);
            assert(left.skip(1) =~= all.skip(i as int));
            assert(before + creations(left) =~= w@ + creations(all.skip(i as int)));
        }
    }
    let r = w.into_vec();
    assert(all.skip(i as int) =~= Seq::empty());
    assert(r@ =~= whole_state(all));
    r
}

/// Annotations live per world, keyed by dimension id. They are kept in memory only, so they
/// are lost on restart.
pub struct Worlds {
    worlds: Vec<(String, Vec<Annotation>)>,
}

/// Where the first world of one dimension stands, from `from` on.
spec fn world_place(
    worlds: Seq<(String, Vec<Annotation>)>,
    dimension: Seq<char>,
    from: int,
) -> Option<int>
    decreases worlds.len() - from,
{
    if from >= worlds.len() {
        None
    } else if worlds[from].0@ == dimension {
        Some(from)
    } else {
        world_place(worlds, dimension, from + 1)
    }
}

/// Worlds whose dimensions are the same up to `n` are found in the same places there.
proof fn lemma_world_place(
    a: Seq<(String, Vec<Annotation>)>,
    b: Seq<(String, Vec<Annotation>)>,
    dimension: Seq<char>,
    from: int,
)
    requires
        0 <= from <= a.len() <= b.len(),
        forall|i: int| 0 <= i < a.len() ==> (#[trigger] a[i]).0@ == b[i].0@,
    ensures
        match world_place(a, dimension, from) {
            Some(i) => from <= i < a.len() && a[i].0@ == dimension && world_place(
                b,
                dimension,
                from,
            ) == Some(i),
            None => world_place(b, dimension, from) == world_place(b, dimension, a.len() as int),
        },
    decreases a.len() - from,
{
    if from < a.len() {
        assert(a[from].0@ == b[from].0@);
        lemma_world_place(a, b, dimension, from + 1);
    }
}

impl Worlds {
    /// The annotations of one dimension.
    pub closed spec fn of(&self, dimension: Seq<char>) -> Seq<AnnotationView> {
        match world_place(self.worlds@, dimension, 0) {
            Some(i) => views(self.worlds@[i].1@),
            None => Seq::empty(),
        }
    }

    /// The annotations of every dimension are in order.
    pub open spec fn wf(&self) -> bool {
        forall|dimension: Seq<char>| crate::annotation_laws::tidy(#[trigger] self.of(dimension))
    }

    /// No annotations anywhere.
    pub fn new() -> (r: Self)
        ensures
            r.wf(),
            forall|dimension: Seq<char>|
                #[trigger] r.of(dimension) == Seq::<AnnotationView>::empty(),
    {
        Self { worlds: Vec::new() }
    }

    /// Where the world of a dimension stands; one that is not there yet is added.
    fn with_world(&mut self, dimension: &str) -> (r: usize)
        ensures
            forall|d: Seq<char>| #[trigger] final(self).of(d) == old(self).of(d),
            r < final(self).worlds@.len(),
            world_place(final(self).worlds@, dimension@, 0) == Some(r as int),
    {
        let ghost before = self.worlds@;
        let mut i: usize = 0;
        while i < self.worlds.len()
            invariant
                i <= self.worlds@.len(),
                *self == *old(self),
                world_place(self.worlds@, dimension@, i as int) == world_place(
                    self.worlds@,
                    dimension@,
                    0,
                ),
            decreases self.worlds@.len() - i,
        {
            if text::str_equal(self.worlds[i].0.as_str(), dimension) {
                return i;
            }
            i += 1;
        }
        self.worlds.push((dimension.to_owned(), Vec::new()));
        proof {
            let after = self.worlds@;
            reveal_with_fuel(world_place, 2);
            assert(views(after[i as int].1@) =~= Seq::<AnnotationView>::empty());
            assert forall|d: Seq<char>| #[trigger] self.of(d) == old(self).of(d) by {
                lemma_world_place(before, after, d, 0);
            }
            lemma_world_place(before, after, dimension@, 0);
        }
        i
    }

    /// `axiom:annotation_update` from a player in the given dimension. Returns what to send
    /// to everyone there.
    pub fn update(&mut self, dimension: &str, body: &[u8]) -> (res: Result<
        Option<Vec<u8>>,
        String,
    >)
        requires
            old(self).wf(),
        ensures
            final(self).wf(),
            final(self).of(dimension@) == updated(old(self).of(dimension@), body@).1,
            forall|d: Seq<char>|
                d != dimension@ ==> #[trigger] final(self).of(d) == old(self).of(d),
            match (res, updated(old(self).of(dimension@), body@).0) {
                (Ok(Some(payload)), Ok(Some(bytes))) => payload@ == bytes,
                (Ok(None), Ok(None)) => true,
                (Err(text), Err(why)) => text@ == why,
                _ => false,
            },
    {
        let at: usize = self.with_world(dimension);
        let ghost before = *self;
        let ghost list = before.of(dimension@);
        assert(list == old(self).of(dimension@));
        let res = handle(&mut self.worlds[at].1, body);
        proof {
            crate::annotation_laws::law_update_keeps_tidy(list, body@);
            lemma_world_place(before.worlds@, self.worlds@, dimension@, 0);
            assert forall|d: Seq<char>| d != dimension@ implies #[trigger] self.of(d) == before.of(
                d,
            ) by {
                lemma_world_place(before.worlds@, self.worlds@, d, 0);
                if let Some(i) = world_place(before.worlds@, d, 0) {
                    assert(self.worlds@[i] == before.worlds@[i]);
                }
            }
            assert forall|d: Seq<char>| crate::annotation_laws::tidy(#[trigger] self.of(d)) by {
                if d != dimension@ {
                    assert(self.of(d) == old(self).of(d));
                }
            }
        }
        res
    }

    /// The whole current state of a dimension, for a player who enters it.
    pub fn state(&mut self, dimension: &str) -> (r: Vec<u8>)
        requires
            old(self).wf(),
        ensures
            final(self).wf(),
            forall|d: Seq<char>| #[trigger] final(self).of(d) == old(self).of(d),
            r@ == whole_state(old(self).of(dimension@)),
    {
        let at: usize = self.with_world(dimension);
        assert(crate::annotation_laws::tidy(self.of(dimension@)));
        send_all(&self.worlds[at].1)
    }
}

} // verus!
