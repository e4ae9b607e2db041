//! Laws of shared annotations: what the server holds, what it relays and what a newcomer is
//! sent all come to the same drawings.

use vstd::prelude::*;
use vstd::string::*;

use crate::annotations;
use crate::annotations::{
    AnnotationView, MAX_ANNOTATIONS, POSITION_BYTES, ROTATION_BYTES,
};
use crate::buf::Error;
use crate::fields;
use crate::fields::Part;
use crate::text;
use crate::wire;

verus! {

proof fn lemma_same_body(a: Seq<u8>, i: int, d: Seq<u8>, o: int)
    requires
        0 <= i <= a.len(),
        annotations::body_at(a, i).0 is Ok,
        wire::agree(a, i, annotations::body_at(a, i).1, d, o),
    ensures
        i < annotations::body_at(a, i).1,
        annotations::body_at(d, i + o) == (
            annotations::body_at(a, i).0,
            annotations::body_at(a, i).1 + o,
        ),
{
    let parts = annotations::layout(a[i])->Some_0;
    let j = annotations::body_at(a, i).1;
    fields::lemma_parts_forward(a, i + 1, parts);
    assert(a[i] == d[i + o]);
    fields::lemma_same_parts(a, i + 1, parts, d, o);
    assert(d.subrange(i + o, j + o) =~= a.subrange(i, j));
}

/// A body that is one annotation from its first byte to its last is measured exactly, whatever
/// stands before and behind it.
pub proof fn law_body_is_measured(body: Seq<u8>, d: Seq<u8>, p: int)
    requires
        whole(body),
        wire::stands(d, p, body),
    ensures
        annotations::body_at(d, p) == (Ok::<Seq<u8>, Error>(body), p + body.len()),
{
    wire::lemma_stands_agree(body, d, p);
    lemma_same_body(body, 0, d, p);
}

/// Whether the body is one annotation from its first byte to its last.
pub open spec fn whole(body: Seq<u8>) -> bool {
    annotations::body_at(body, 0) == (Ok::<Seq<u8>, Error>(body), body.len() as int)
}

/// What holds of the annotations of a world at all times: there are not too many, no two have
/// the same id, and each body is one annotation.
pub open spec fn tidy(list: Seq<AnnotationView>) -> bool {
    &&& list.len() <= MAX_ANNOTATIONS
    &&& forall|i: int, j: int| 0 <= i < j < list.len() ==> list[i].uuid != list[j].uuid
    &&& forall|i: int| 0 <= i < list.len() ==> whole(#[trigger] list[i].body)
}

proof fn lemma_without(list: Seq<AnnotationView>, uuid: (u64, u64))
    requires
        tidy(list),
    ensures
        tidy(annotations::without(list, uuid)),
        annotations::without(list, uuid).len() <= list.len(),
        forall|i: int|
            0 <= i < annotations::without(list, uuid).len() ==> (#[trigger] annotations::without(
                list,
                uuid,
            )[i]).uuid != uuid,
        forall|i: int|
            0 <= i < annotations::without(list, uuid).len() ==> list.contains(
                #[trigger] annotations::without(list, uuid)[i],
            ),
    decreases list.len(),
{
    reveal(Seq::filter);
    if list.len() > 0 {
        let init = list.drop_last();
        let left = annotations::without(init, uuid);
        let out = annotations::without(list, uuid);
        assert(tidy(init)) by {
            assert forall|i: int| 0 <= i < init.len() implies whole(#[trigger] init[i].body) by {
                assert(whole(list[i].body));
            }
        }
        lemma_without(init, uuid);
        assert forall|i: int| 0 <= i < out.len() implies list.contains(#[trigger] out[i]) by {
            if i < left.len() {
                assert(init.contains(left[i]));
                let k = choose|k: int| 0 <= k < init.len() && init[k] == left[i];
                assert(list[k] == out[i]);
            } else {
                assert(list[list.len() - 1] == out[i]);
            }
        }
        assert forall|i: int, j: int| 0 <= i < j < out.len() implies out[i].uuid != out[j].uuid by {
            if j == left.len() {
                assert(init.contains(left[i]));
                let k = choose|k: int| 0 <= k < init.len() && init[k] == left[i];
                assert(list[k].uuid != list[list.len() - 1].uuid);
            }
        }
        assert forall|i: int| 0 <= i < out.len() implies whole(#[trigger] out[i].body) by {
            assert(list.contains(out[i]));
            let k = choose|k: int| 0 <= k < list.len() && list[k] == out[i];
            assert(whole(list[k].body));
        }
    }
}

/// Overwriting the transform of an annotation leaves an annotation.
proof fn lemma_patched_whole(body: Seq<u8>, shift: int, value: Seq<u8>)
    requires
        whole(body),
        annotations::transform_at(body) is Some,
        0 <= shift,
        shift + value.len() <= POSITION_BYTES + ROTATION_BYTES,
    ensures
        whole(annotations::patched(body, annotations::transform_at(body)->Some_0 + shift, value)),
{
    let at = annotations::transform_at(body)->Some_0;
    let out = annotations::patched(body, at + shift, value);
    let parts = annotations::layout(body[0])->Some_0;
    let rest = parts.skip(1);
    wire::lemma_groups_forward(body, 1, 5);
    fields::lemma_part_forward(body, 1, Part::Text);
    assert(parts[0] == Part::Text);
    assert(wire::agree(body, 0, at, out, 0));
    assert(body[0] == out[0]);
    fields::lemma_same_part(body, 1, Part::Text, out, 0);
    assert forall|i: int| 0 <= i < rest.len() implies #[trigger] rest[i] is Raw by {
        assert(rest[i] == parts[i + 1]);
    }
    fields::lemma_raw_parts(body, out, at, rest);
    assert(out.subrange(0, out.len() as int) =~= out);
}

proof fn lemma_place(list: Seq<AnnotationView>, uuid: (u64, u64), from: int)
    requires
        0 <= from,
    ensures
        annotations::place_of(list, uuid, from) matches Some(i) ==> from <= i < list.len(),
    decreases list.len() - from,
{
    if from < list.len() {
        lemma_place(list, uuid, from + 1);
    }
}

/// A tidy list stays tidy under any action.
pub proof fn law_action_keeps_tidy(list: Seq<AnnotationView>, d: Seq<u8>, p: int)
    requires
        tidy(list),
        0 <= p <= d.len(),
    ensures
        annotations::acted(list, d, p).0 matches Ok((next, _)) ==> tidy(next),
{
    if let (Ok((next, _)), q) = annotations::acted(list, d, p) {
        let action = d[p];
        if action != 3 {
            let uuid = wire::read_uuid(d, p + 1).0->Ok_0;
            let q2 = wire::read_uuid(d, p + 1).1;
            if action == 0 {
                let body = annotations::body_at(d, q2).0->Ok_0;
                let q3 = annotations::body_at(d, q2).1;
                fields::lemma_parts_forward(
                    d,
                    q2 + 1,
                    annotations::layout(d[q2])->Some_0,
                );
                assert(wire::agree(d, q2, q3, body, -q2));
                lemma_same_body(d, q2, body, -q2);
                lemma_without(list, uuid);
            } else if action == 1 {
                lemma_without(list, uuid);
            } else {
                let (width, shift) = if action == 2 {
                    (POSITION_BYTES as int, 0int)
                } else {
                    (ROTATION_BYTES as int, POSITION_BYTES as int)
                };
                let value = wire::take(d, q2, width).0->Ok_0;
                lemma_place(list, uuid, 0);
                if let Some(i) = annotations::place_of(list, uuid, 0) {
                    assert(whole(list[i].body));
                    if annotations::transform_at(list[i].body) is Some {
                        lemma_patched_whole(list[i].body, shift, value);
                    }
                    assert forall|k: int| 0 <= k < next.len() implies whole(
                        #[trigger] next[k].body,
                    ) by {
                        assert(whole(list[k].body));
                    }
                }
            }
        }
    }
}

proof fn lemma_actions_keep_tidy(list: Seq<AnnotationView>, d: Seq<u8>, p: int, n: nat)
    requires
        tidy(list),
        0 <= p <= d.len(),
    ensures
        tidy(annotations::acted_all(list, d, p, n).1),
    decreases n,
{
    if n > 0 {
        if let (Ok((next, _)), q) = annotations::acted(list, d, p) {
            annotations::lemma_action_forward(list, d, p);
            law_action_keeps_tidy(list, d, p);
            lemma_actions_keep_tidy(next, d, q, (n - 1) as nat);
        }
    }
}

/// A tidy list stays tidy under any batch of actions, whether or not it is read to its end.
pub proof fn law_update_keeps_tidy(list: Seq<AnnotationView>, body: Seq<u8>)
    requires
        tidy(list),
    ensures
        tidy(annotations::updated(list, body).1),
{
    wire::lemma_groups_forward(body, 0, 5);
    if let (Ok(n), q) = wire::read_var_len(body, 0, "annotation actions", MAX_ANNOTATIONS) {
        lemma_actions_keep_tidy(list, body, q, n as nat);
    }
}

/// An action does the same wherever it stands.
proof fn lemma_same_action(list: Seq<AnnotationView>, a: Seq<u8>, i: int, d: Seq<u8>, o: int)
    requires
        0 <= i <= a.len(),
        annotations::acted(list, a, i).0 is Ok,
        wire::agree(a, i, annotations::acted(list, a, i).1, d, o),
    ensures
        annotations::acted(list, d, i + o) == (
            annotations::acted(list, a, i).0,
            annotations::acted(list, a, i).1 + o,
        ),
{
    annotations::lemma_action_forward(list, a, i);
    wire::lemma_same_u8(a, i, d, o);
    if a[i] != 3 {
        let q2 = i + 17;
        if a[i] == 0 {
            fields::lemma_parts_forward(a, q2 + 1, annotations::layout(a[q2])->Some_0);
        }
        wire::lemma_same_take(a, i + 1, 8, d, o);
        wire::lemma_same_take(a, i + 9, 8, d, o);
        if a[i] == 0 {
            lemma_same_body(a, q2, d, o);
        } else if a[i] == 2 {
            wire::lemma_same_take(a, q2, POSITION_BYTES as int, d, o);
        } else if a[i] == 4 {
            wire::lemma_same_take(a, q2, ROTATION_BYTES as int, d, o);
        }
    }
}

/// The actions that are relayed, from where they stand, do what the whole batch does.
proof fn lemma_relayed(
    list: Seq<AnnotationView>,
    a: Seq<u8>,
    i: int,
    n: nat,
    d: Seq<u8>,
    p: int,
)
    requires
        0 <= i <= a.len(),
        annotations::acted_all(list, a, i, n).0 matches Ok((bytes, _)) && wire::stands(
            d,
            p,
            bytes,
        ),
    ensures
        annotations::acted_all(list, a, i, n).0->Ok_0.1 <= n,
        annotations::acted_all(list, d, p, annotations::acted_all(list, a, i, n).0->Ok_0.1)
            == annotations::acted_all(list, a, i, n),
    decreases n,
{
    if n > 0 {
        let ((next, relayed), q) = (
            annotations::acted(list, a, i).0->Ok_0,
            annotations::acted(list, a, i).1,
        );
        let (rest, count) = annotations::acted_all(next, a, q, (n - 1) as nat).0->Ok_0;
        annotations::lemma_action_forward(list, a, i);
        if relayed {
            let part = a.subrange(i, q);
            wire::lemma_stands_split(d, p, part, rest);
            wire::lemma_stands_agree(part, d, p);
            assert(wire::agree(a, i, q, d, p - i)) by {
                assert forall|k: int| i <= k < q implies #[trigger] a[k] == d[k + (p - i)] by {
                    assert(part[k - i] == d[k - i + p]);
                }
            }
            lemma_same_action(list, a, i, d, p - i);
            lemma_relayed(next, a, q, (n - 1) as nat, d, p + part.len());
            assert(d.subrange(p, p + part.len()) =~= part);
        } else {
            lemma_relayed(next, a, q, (n - 1) as nat, d, p);
        }
    }
}

/// Whoever holds what the server held before a batch, and applies what the server relays of
/// it, comes to what the server holds behind it.
pub proof fn law_relay_brings_the_same(list: Seq<AnnotationView>, body: Seq<u8>)
    ensures
        match annotations::updated(list, body) {
            (Ok(Some(payload)), end) => annotations::updated(list, payload) == (
                Ok::<Option<Seq<u8>>, Seq<char>>(Some(payload)),
                end,
            ),
            (Ok(None), end) => end == list,
            (Err(_), _) => true,
        },
{
    wire::lemma_groups_forward(body, 0, 5);
    if let (Ok(n), q) = wire::read_var_len(body, 0, "annotation actions", MAX_ANNOTATIONS) {
        if let (Ok((bytes, count)), end) = annotations::acted_all(list, body, q, n as nat) {
            lemma_none_relayed(list, body, q, n as nat);
            if count > 0 {
                let head = wire::var_i32_bytes(count as i32);
                let payload = head + bytes;
                assert(payload.subrange(0, payload.len() as int) =~= payload);
                wire::lemma_stands_split(payload, 0, head, bytes);
                lemma_relayed(list, body, q, n as nat, payload, head.len() as int);
                wire::law_var_i32_round_trip(payload, 0, count as i32);
            }
        }
    }
}

/// Where nothing is relayed, nothing has changed.
proof fn lemma_none_relayed(list: Seq<AnnotationView>, d: Seq<u8>, p: int, n: nat)
    ensures
        match annotations::acted_all(list, d, p, n) {
            (Ok((_, count)), end) => count <= n && (count == 0 ==> end == list),
            _ => true,
        },
    decreases n,
{
    if n > 0 {
        if let (Ok((next, _)), q) = annotations::acted(list, d, p) {
            lemma_none_relayed(next, d, q, (n - 1) as nat);
        }
    }
}

/// Creating annotations one after the other adds them in their order.
proof fn lemma_created(done: Seq<AnnotationView>, left: Seq<AnnotationView>, d: Seq<u8>, p: int)
    requires
        tidy(done + left),
        (done + left).len() < MAX_ANNOTATIONS,
        wire::stands(d, p, annotations::creations(left)),
    ensures
        annotations::acted_all(done, d, p, left.len()).0 is Ok,
        annotations::acted_all(done, d, p, left.len()).1 == done + left,
    decreases left.len(),
{
    if left.len() == 0 {
        assert(done + left =~= done);
    } else {
        let a = left[0];
        let rest = left.skip(1);
        assert(whole((done + left)[done.len() as int].body));
        assert((done + left)[done.len() as int] == a);
        lemma_without_none(done, a.uuid, done + left, done.len() as int);
        lemma_create(done, a, annotations::creations(rest), d, p);
        assert(done.push(a) + rest =~= done + left);
        lemma_created(done.push(a), rest, d, p + 17 + a.body.len());
    }
}

/// Creating one annotation adds it behind the others.
proof fn lemma_create(
    done: Seq<AnnotationView>,
    a: AnnotationView,
    tail: Seq<u8>,
    d: Seq<u8>,
    p: int,
)
    requires
        whole(a.body),
        done.len() < MAX_ANNOTATIONS,
        annotations::without(done, a.uuid) == done,
        wire::stands(d, p, seq![0u8] + wire::uuid_bytes(a.uuid.0, a.uuid.1) + a.body + tail),
    ensures
        annotations::acted(done, d, p) == (
            Ok::<(Seq<AnnotationView>, bool), Seq<char>>((done.push(a), true)),
            p + 17 + a.body.len(),
        ),
        wire::stands(d, p + 17 + a.body.len(), tail),
{
    let id = wire::uuid_bytes(a.uuid.0, a.uuid.1);
    wire::lemma_stands_split(d, p, seq![0u8] + id + a.body, tail);
    wire::lemma_stands_split(d, p, seq![0u8] + id, a.body);
    wire::lemma_stands_split(d, p, seq![0u8], id);
    wire::lemma_to_be_len(a.uuid.0 as nat, 8);
    wire::lemma_to_be_len(a.uuid.1 as nat, 8);
    wire::law_u8_round_trip(d, p, 0);
    wire::law_uuid_round_trip(d, p + 1, a.uuid.0, a.uuid.1);
    law_body_is_measured(a.body, d, p + 17);
}

/// Where no annotation has the id, there is none to take out.
proof fn lemma_without_none(
    list: Seq<AnnotationView>,
    uuid: (u64, u64),
    all: Seq<AnnotationView>,
    at: int,
)
    requires
        tidy(all),
        0 <= at < all.len(),
        all[at].uuid == uuid,
        list.len() <= at,
        forall|i: int| 0 <= i < list.len() ==> list[i] == all[i],
    ensures
        annotations::without(list, uuid) == list,
    decreases list.len(),
{
    reveal(Seq::filter);
    if list.len() > 0 {
        lemma_without_none(list.drop_last(), uuid, all, at);
        assert(all[list.len() - 1].uuid != all[at].uuid);
        assert(list.drop_last().push(list.last()) =~= list);
    } else {
        assert(annotations::without(list, uuid) =~= list);
    }
}

/// Whatever a newcomer held, the whole state they are sent brings them to what the server
/// holds, as long as it is one short of the limit, for the batch counts the clear as well.
pub proof fn law_whole_state_brings_the_same(
    before: Seq<AnnotationView>,
    list: Seq<AnnotationView>,
)
    requires
        tidy(list),
        list.len() < MAX_ANNOTATIONS,
    ensures
        annotations::updated(before, annotations::whole_state(list)).0 is Ok,
        annotations::updated(before, annotations::whole_state(list)).1 == list,
{
    let d = annotations::whole_state(list);
    let n = list.len() + 1;
    let head = wire::var_i32_bytes(n as i32);
    assert(d.subrange(0, d.len() as int) =~= d);
    wire::lemma_stands_split(d, 0, head + seq![3u8], annotations::creations(list));
    wire::lemma_stands_split(d, 0, head, seq![3u8]);
    wire::law_var_i32_round_trip(d, 0, n as i32);
    wire::law_u8_round_trip(d, head.len() as int, 3);
    let none = Seq::<AnnotationView>::empty();
    assert(none + list =~= list);
    lemma_created(none, list, d, head.len() as int + 1);
}

/// The transform of a text or an image stands right behind its leading string: twelve bytes of
/// position, then sixteen of rotation. Nothing else has one.
pub proof fn law_transform_stands_behind_the_string(
    body: Seq<u8>,
    kind: u8,
    text: Seq<char>,
    transform: Seq<u8>,
)
    requires
        vstd::utf8::encode_utf8(text).len() <= wire::MAX_STRING_BYTES,
        transform.len() == 28,
        wire::laid(body, 0, seq![seq![kind], wire::string_bytes(text), transform]),
    ensures
        annotations::transform_at(body) == if kind == 1 || kind == 2 {
            Some(1 + wire::string_bytes(text).len() as int)
        } else {
            None
        },
{
    reveal_with_fuel(wire::laid, 4);
    wire::law_u8_round_trip(body, 0, kind);
    wire::law_string_round_trip(body, 1, text);
}

/// A text or an image: its type, its string, its position, its rotation, and what follows.
pub open spec fn drawn(
    kind: u8,
    text: Seq<char>,
    position: Seq<u8>,
    rotation: Seq<u8>,
    rest: Seq<u8>,
) -> Seq<u8> {
    seq![kind] + wire::string_bytes(text) + position + rotation + rest
}

proof fn lemma_drawn(
    kind: u8,
    text: Seq<char>,
    position: Seq<u8>,
    rotation: Seq<u8>,
    rest: Seq<u8>,
)
    requires
        kind == 1 || kind == 2,
        vstd::utf8::encode_utf8(text).len() <= wire::MAX_STRING_BYTES,
        position.len() == 12,
        rotation.len() == 16,
    ensures
        annotations::transform_at(drawn(kind, text, position, rotation, rest)) == Some(
            1 + wire::string_bytes(text).len() as int,
        ),
{
    let body = drawn(kind, text, position, rotation, rest);
    let head = seq![kind];
    let string = wire::string_bytes(text);
    assert(body =~= head + string + (position + rotation) + rest);
    assert(body.subrange(0, body.len() as int) =~= body);
    wire::lemma_stands_split(body, 0, head + string + (position + rotation), rest);
    wire::lemma_stands_split(body, 0, head + string, position + rotation);
    wire::lemma_stands_split(body, 0, head, string);
    reveal_with_fuel(wire::laid, 4);
    law_transform_stands_behind_the_string(body, kind, text, position + rotation);
}

/// Whether an annotation is the first with its id.
pub open spec fn is_first(list: Seq<AnnotationView>, uuid: (u64, u64), i: int) -> bool {
    &&& 0 <= i < list.len()
    &&& list[i].uuid == uuid
    &&& forall|j: int| 0 <= j < i ==> (#[trigger] list[j]).uuid != uuid
}

proof fn lemma_first(list: Seq<AnnotationView>, uuid: (u64, u64), from: int, i: int)
    requires
        is_first(list, uuid, i),
        0 <= from <= i,
    ensures
        annotations::place_of(list, uuid, from) == Some(i),
    decreases i - from,
{
    if from < i {
        assert(list[from].uuid != uuid);
        lemma_first(list, uuid, from + 1, i);
    }
}

proof fn lemma_nowhere(list: Seq<AnnotationView>, uuid: (u64, u64), from: int)
    requires
        0 <= from,
        forall|j: int| 0 <= j < list.len() ==> (#[trigger] list[j]).uuid != uuid,
    ensures
        annotations::place_of(list, uuid, from) is None,
    decreases list.len() - from,
{
    if from < list.len() {
        assert(list[from].uuid != uuid);
        lemma_nowhere(list, uuid, from + 1);
    }
}

/// The head of an action on one annotation: what it does, and whose it is.
proof fn lemma_action_head(d: Seq<u8>, p: int, action: u8, uuid: (u64, u64), value: Seq<u8>)
    requires
        wire::laid(d, p, seq![seq![action], wire::uuid_bytes(uuid.0, uuid.1), value]),
    ensures
        wire::read_u8(d, p) == (Ok::<u8, Error>(action), p + 1),
        wire::read_uuid(d, p + 1) == (Ok::<(u64, u64), Error>(uuid), p + 17),
        wire::stands(d, p + 17, value),
{
    reveal_with_fuel(wire::laid, 4);
    wire::lemma_to_be_len(uuid.0 as nat, 8);
    wire::lemma_to_be_len(uuid.1 as nat, 8);
    wire::law_u8_round_trip(d, p, action);
    wire::law_uuid_round_trip(d, p + 1, uuid.0, uuid.1);
}

/// Moving a text or an image gives it the new position, and changes nothing else about it or
/// about any other annotation. The action is relayed.
pub proof fn law_annotation_is_moved(
    list: Seq<AnnotationView>,
    i: int,
    kind: u8,
    text: Seq<char>,
    position: Seq<u8>,
    rotation: Seq<u8>,
    rest: Seq<u8>,
    to: Seq<u8>,
    d: Seq<u8>,
    p: int,
)
    requires
        0 <= i < list.len(),
        is_first(list, list[i].uuid, i),
        kind == 1 || kind == 2,
        vstd::utf8::encode_utf8(text).len() <= wire::MAX_STRING_BYTES,
        position.len() == 12,
        rotation.len() == 16,
        list[i].body == drawn(kind, text, position, rotation, rest),
        to.len() == 12,
        wire::laid(
            d,
            p,
            seq![seq![2u8], wire::uuid_bytes(list[i].uuid.0, list[i].uuid.1), to],
        ),
    ensures
        annotations::acted(list, d, p) == (
            Ok::<(Seq<AnnotationView>, bool), Seq<char>>(
                (
                    list.update(
                        i,
                        AnnotationView {
                            uuid: list[i].uuid,
                            body: drawn(kind, text, to, rotation, rest),
                        },
                    ),
                    true,
                ),
            ),
            p + 29,
        ),
{
    let uuid = list[i].uuid;
    let at = 1 + wire::string_bytes(text).len() as int;
    lemma_action_head(d, p, 2, uuid, to);
    lemma_first(list, uuid, 0, i);
    lemma_drawn(kind, text, position, rotation, rest);
    wire::law_take(d, p + 17, to);
    assert(annotations::patched(list[i].body, at + 0, to) =~= drawn(
        kind,
        text,
        to,
        rotation,
        rest,
    ));
}

/// Rotating a text or an image gives it the new rotation, and changes nothing else about it or
/// about any other annotation. The action is relayed.
pub proof fn law_annotation_is_rotated(
    list: Seq<AnnotationView>,
    i: int,
    kind: u8,
    text: Seq<char>,
    position: Seq<u8>,
    rotation: Seq<u8>,
    rest: Seq<u8>,
    to: Seq<u8>,
    d: Seq<u8>,
    p: int,
)
    requires
        0 <= i < list.len(),
        is_first(list, list[i].uuid, i),
        kind == 1 || kind == 2,
        vstd::utf8::encode_utf8(text).len() <= wire::MAX_STRING_BYTES,
        position.len() == 12,
        rotation.len() == 16,
        list[i].body == drawn(kind, text, position, rotation, rest),
        to.len() == 16,
        wire::laid(
            d,
            p,
            seq![seq![4u8], wire::uuid_bytes(list[i].uuid.0, list[i].uuid.1), to],
        ),
    ensures
        annotations::acted(list, d, p) == (
            Ok::<(Seq<AnnotationView>, bool), Seq<char>>(
                (
                    list.update(
                        i,
                        AnnotationView {
                            uuid: list[i].uuid,
                            body: drawn(kind, text, position, to, rest),
                        },
                    ),
                    true,
                ),
            ),
            p + 33,
        ),
{
    let uuid = list[i].uuid;
    let at = 1 + wire::string_bytes(text).len() as int;
    lemma_action_head(d, p, 4, uuid, to);
    lemma_first(list, uuid, 0, i);
    lemma_drawn(kind, text, position, rotation, rest);
    wire::law_take(d, p + 17, to);
    assert(annotations::patched(list[i].body, at + 12, to) =~= drawn(
        kind,
        text,
        position,
        to,
        rest,
    ));
}

/// Moving or rotating what is not there, or is neither a text nor an image, changes nothing; it
/// is relayed all the same.
pub proof fn law_nothing_to_move(
    list: Seq<AnnotationView>,
    uuid: (u64, u64),
    action: u8,
    value: Seq<u8>,
    d: Seq<u8>,
    p: int,
    i: int,
)
    requires
        action == 2 && value.len() == 12 || action == 4 && value.len() == 16,
        wire::laid(d, p, seq![seq![action], wire::uuid_bytes(uuid.0, uuid.1), value]),
        (forall|j: int| 0 <= j < list.len() ==> (#[trigger] list[j]).uuid != uuid) || (is_first(
            list,
            uuid,
            i,
        ) && list[i].body.len() > 0 && list[i].body[0] != 1 && list[i].body[0] != 2),
    ensures
        annotations::acted(list, d, p) == (
            Ok::<(Seq<AnnotationView>, bool), Seq<char>>((list, true)),
            p + 17 + value.len(),
        ),
{
    lemma_action_head(d, p, action, uuid, value);
    wire::law_take(d, p + 17, value);
    if forall|j: int| 0 <= j < list.len() ==> (#[trigger] list[j]).uuid != uuid {
        lemma_nowhere(list, uuid, 0);
    } else {
        lemma_first(list, uuid, 0, i);
    }
}

/// Creating an annotation puts it behind the others, in place of any with its id, and is relayed.
/// Where a world has 4096 of them already, it changes nothing and is not relayed.
pub proof fn law_annotation_is_created(
    list: Seq<AnnotationView>,
    uuid: (u64, u64),
    body: Seq<u8>,
    d: Seq<u8>,
    p: int,
)
    requires
        whole(body),
        wire::laid(d, p, seq![seq![0u8], wire::uuid_bytes(uuid.0, uuid.1), body]),
    ensures
        annotations::acted(list, d, p) == (
            Ok::<(Seq<AnnotationView>, bool), Seq<char>>(
                if list.len() < 4096 {
                    (
                        list.filter(|a: AnnotationView| a.uuid != uuid).push(
                            AnnotationView { uuid, body },
                        ),
                        true,
                    )
                } else {
                    (list, false)
                },
            ),
            p + 17 + body.len(),
        ),
{
    lemma_action_head(d, p, 0, uuid, body);
    law_body_is_measured(body, d, p + 17);
}

/// Deleting an annotation leaves the others as they are, and clearing leaves none. Both are
/// relayed.
pub proof fn law_annotations_are_deleted(
    list: Seq<AnnotationView>,
    uuid: (u64, u64),
    d: Seq<u8>,
    p: int,
)
    ensures
        wire::laid(d, p, seq![seq![1u8], wire::uuid_bytes(uuid.0, uuid.1), Seq::empty()])
            ==> annotations::acted(list, d, p) == (
            Ok::<(Seq<AnnotationView>, bool), Seq<char>>(
                (list.filter(|a: AnnotationView| a.uuid != uuid), true),
            ),
            p + 17,
        ),
        wire::stands(d, p, seq![3u8]) ==> annotations::acted(list, d, p) == (
            Ok::<(Seq<AnnotationView>, bool), Seq<char>>((Seq::empty(), true)),
            p + 1,
        ),
{
    if wire::laid(d, p, seq![seq![1u8], wire::uuid_bytes(uuid.0, uuid.1), Seq::empty()]) {
        lemma_action_head(d, p, 1, uuid, Seq::empty());
    }
    if wire::stands(d, p, seq![3u8]) {
        wire::law_u8_round_trip(d, p, 3);
    }
}

/// The actions of a batch are applied one after the other, each to what the ones before it left;
/// those that are relayed are relayed as they were sent, in their order.
pub proof fn law_actions_follow_each_other(
    list: Seq<AnnotationView>,
    d: Seq<u8>,
    p: int,
    q: int,
    n: nat,
    next: Seq<AnnotationView>,
    relayed: bool,
)
    requires
        0 <= p <= d.len(),
        annotations::acted(list, d, p) == (
            Ok::<(Seq<AnnotationView>, bool), Seq<char>>((next, relayed)),
            q,
        ),
    ensures
        ({
            let (told, end) = annotations::acted_all(list, d, p, n + 1);
            let (rest, last) = annotations::acted_all(next, d, q, n);
            &&& end == last
            &&& told is Ok <==> rest is Ok
            &&& rest matches Ok((bytes, count)) ==> {
                &&& relayed ==> told->Ok_0.1 == count + 1 && told->Ok_0.0 == d.subrange(p, q)
                    + bytes
                &&& !relayed ==> told->Ok_0 == (bytes, count)
            }
        }),
{
}

/// Passes over a part that stands where it should and goes on with the others.
proof fn lemma_past(d: Seq<u8>, p: int, parts: Seq<Part>, q: int)
    requires
        parts.len() > 0,
        fields::past_part(d, p, parts[0]) == (Ok::<(), Error>(()), q),
    ensures
        fields::past_parts(d, p, parts) == fields::past_parts(d, q, parts.skip(1)),
{
}

/// A line is its type, three numbers that say where it starts, its width and its colour of four
/// bytes each, and its packed offsets.
pub proof fn law_line_is_measured(
    body: Seq<u8>,
    start: (i32, i32, i32),
    width: Seq<u8>,
    colour: Seq<u8>,
    offsets: Seq<u8>,
)
    requires
        width.len() == 4,
        colour.len() == 4,
        offsets.len() <= 1048576,
        body == seq![0u8] + wire::var_i32_bytes(start.0) + wire::var_i32_bytes(start.1)
            + wire::var_i32_bytes(start.2) + width + colour + wire::sized_bytes(offsets),
    ensures
        whole(body),
{
    let a = wire::var_i32_bytes(start.0);
    let b = wire::var_i32_bytes(start.1);
    let c = wire::var_i32_bytes(start.2);
    let e = wire::sized_bytes(offsets);
    let all = annotations::layout(0)->Some_0;
    assert(body.subrange(0, body.len() as int) =~= body);
    wire::lemma_stands_split(body, 0, seq![0u8] + a + b + c + width + colour, e);
    wire::lemma_stands_split(body, 0, seq![0u8] + a + b + c + width, colour);
    wire::lemma_stands_split(body, 0, seq![0u8] + a + b + c, width);
    wire::lemma_stands_split(body, 0, seq![0u8] + a + b, c);
    wire::lemma_stands_split(body, 0, seq![0u8] + a, b);
    wire::lemma_stands_split(body, 0, seq![0u8], a);
    wire::law_u8_round_trip(body, 0, 0);
    let q1 = 1 + a.len() as int;
    let q2 = q1 + b.len();
    let q3 = q2 + c.len();
    wire::law_var_i32_round_trip(body, 1, start.0);
    wire::law_var_i32_round_trip(body, q1, start.1);
    wire::law_var_i32_round_trip(body, q2, start.2);
    wire::law_sized_round_trip(body, q3 + 8, offsets, "byte array", 1048576);
    lemma_past(body, 1, all, q1);
    lemma_past(body, q1, all.skip(1), q2);
    lemma_past(body, q2, all.skip(1).skip(1), q3);
    let left = all.skip(1).skip(1).skip(1);
    lemma_past(body, q3, left, q3 + 4);
    lemma_past(body, q3 + 4, left.skip(1), q3 + 8);
    lemma_past(body, q3 + 8, left.skip(1).skip(1), body.len() as int);
    assert(left.skip(1).skip(1).skip(1).len() == 0);
}

/// A text is its type, its string, a transform of 28 bytes and fifteen bytes of facing and
/// styling; an image has fourteen bytes of facing, size and opacity instead.
#[verifier::rlimit(30)]
pub proof fn law_text_and_image_are_measured(
    kind: u8,
    text: Seq<char>,
    position: Seq<u8>,
    rotation: Seq<u8>,
    rest: Seq<u8>,
)
    requires
        kind == 1 && rest.len() == 15 || kind == 2 && rest.len() == 14,
        vstd::utf8::encode_utf8(text).len() <= wire::MAX_STRING_BYTES,
        position.len() == 12,
        rotation.len() == 16,
    ensures
        whole(drawn(kind, text, position, rotation, rest)),
{
    let body = drawn(kind, text, position, rotation, rest);
    let string = wire::string_bytes(text);
    let all = annotations::layout(kind)->Some_0;
    assert(body =~= seq![kind] + string + (position + rotation + rest));
    assert(body.subrange(0, body.len() as int) =~= body);
    wire::lemma_stands_split(body, 0, seq![kind] + string, position + rotation + rest);
    wire::lemma_stands_split(body, 0, seq![kind], string);
    wire::law_u8_round_trip(body, 0, kind);
    wire::law_string_round_trip(body, 1, text);
    let q = 1 + string.len() as int;
    lemma_past(body, 1, all, q);
    lemma_past(body, q, all.skip(1), q + 28);
    let left = all.skip(1).skip(1);
    lemma_past(body, q + 28, left, q + 29);
    lemma_past(body, q + 29, left.skip(1), q + 33);
    lemma_past(body, q + 33, left.skip(1).skip(1), q + 37);
    let last = left.skip(1).skip(1).skip(1);
    if kind == 1 {
        lemma_past(body, q + 37, last, q + 38);
        lemma_past(body, q + 38, last.skip(1), q + 42);
        lemma_past(body, q + 42, last.skip(1).skip(1), q + 43);
        assert(last.skip(1).skip(1).skip(1).len() == 0);
    } else {
        lemma_past(body, q + 37, last, q + 41);
        lemma_past(body, q + 41, last.skip(1), q + 42);
        assert(last.skip(1).skip(1).len() == 0);
    }
}

/// A freehand outline is its type, three numbers that say where it starts, a count, its colour of
/// four bytes, and its packed offsets.
pub proof fn law_freehand_outline_is_measured(
    body: Seq<u8>,
    start: (i32, i32, i32),
    count: i32,
    colour: Seq<u8>,
    offsets: Seq<u8>,
)
    requires
        colour.len() == 4,
        offsets.len() <= 1048576,
        body == seq![3u8] + wire::var_i32_bytes(start.0) + wire::var_i32_bytes(start.1)
            + wire::var_i32_bytes(start.2) + wire::var_i32_bytes(count) + colour
            + wire::sized_bytes(offsets),
    ensures
        whole(body),
{
    let a = wire::var_i32_bytes(start.0);
    let b = wire::var_i32_bytes(start.1);
    let c = wire::var_i32_bytes(start.2);
    let n = wire::var_i32_bytes(count);
    let e = wire::sized_bytes(offsets);
    let all = annotations::layout(3)->Some_0;
    assert(body.subrange(0, body.len() as int) =~= body);
    wire::lemma_stands_split(body, 0, seq![3u8] + a + b + c + n + colour, e);
    wire::lemma_stands_split(body, 0, seq![3u8] + a + b + c + n, colour);
    wire::lemma_stands_split(body, 0, seq![3u8] + a + b + c, n);
    wire::lemma_stands_split(body, 0, seq![3u8] + a + b, c);
    wire::lemma_stands_split(body, 0, seq![3u8] + a, b);
    wire::lemma_stands_split(body, 0, seq![3u8], a);
    wire::law_u8_round_trip(body, 0, 3);
    let q1 = 1 + a.len() as int;
    let q2 = q1 + b.len();
    let q3 = q2 + c.len();
    let q4 = q3 + n.len();
    wire::law_var_i32_round_trip(body, 1, start.0);
    wire::law_var_i32_round_trip(body, q1, start.1);
    wire::law_var_i32_round_trip(body, q2, start.2);
    wire::law_var_i32_round_trip(body, q3, count);
    wire::law_sized_round_trip(body, q4 + 4, offsets, "byte array", 1048576);
    lemma_past(body, 1, all, q1);
    lemma_past(body, q1, all.skip(1), q2);
    lemma_past(body, q2, all.skip(1).skip(1), q3);
    let left = all.skip(1).skip(1).skip(1);
    lemma_past(body, q3, left, q4);
    lemma_past(body, q4, left.skip(1), q4 + 4);
    lemma_past(body, q4 + 4, left.skip(1).skip(1), body.len() as int);
    assert(left.skip(1).skip(1).skip(1).len() == 0);
}

/// An outline of lines is its type, its positions of eight bytes each with their count in front,
/// and its colour of four bytes.
pub proof fn law_lines_outline_is_measured(body: Seq<u8>, positions: Seq<u8>, n: nat, colour: Seq<u8>)
    requires
        n <= 1048576,
        positions.len() == 8 * n,
        colour.len() == 4,
        body == seq![4u8] + wire::len_bytes(n) + positions + colour,
    ensures
        whole(body),
{
    let count = wire::len_bytes(n);
    let all = annotations::layout(4)->Some_0;
    assert(body.subrange(0, body.len() as int) =~= body);
    wire::lemma_stands_split(body, 0, seq![4u8] + count + positions, colour);
    wire::lemma_stands_split(body, 0, seq![4u8] + count, positions);
    wire::lemma_stands_split(body, 0, seq![4u8], count);
    wire::law_u8_round_trip(body, 0, 4);
    wire::law_var_len_round_trip(body, 1, n, "outline positions", 1048576);
    let q = 1 + count.len() as int;
    lemma_past(body, 1, all, q + positions.len());
    lemma_past(body, q + positions.len(), all.skip(1), body.len() as int);
    assert(all.skip(1).skip(1).len() == 0);
}

/// An outline of a box is its type, three numbers for each of its two corners, and its colour of
/// four bytes.
pub proof fn law_box_outline_is_measured(
    body: Seq<u8>,
    from: (i32, i32, i32),
    to: (i32, i32, i32),
    colour: Seq<u8>,
)
    requires
        colour.len() == 4,
        body == seq![5u8] + wire::var_i32_bytes(from.0) + wire::var_i32_bytes(from.1)
            + wire::var_i32_bytes(from.2) + wire::var_i32_bytes(to.0) + wire::var_i32_bytes(to.1)
            + wire::var_i32_bytes(to.2) + colour,
    ensures
        whole(body),
{
    let a = wire::var_i32_bytes(from.0);
    let b = wire::var_i32_bytes(from.1);
    let c = wire::var_i32_bytes(from.2);
    let e = wire::var_i32_bytes(to.0);
    let f = wire::var_i32_bytes(to.1);
    let g = wire::var_i32_bytes(to.2);
    let all = annotations::layout(5)->Some_0;
    assert(body.subrange(0, body.len() as int) =~= body);
    wire::lemma_stands_split(body, 0, seq![5u8] + a + b + c + e + f + g, colour);
    wire::lemma_stands_split(body, 0, seq![5u8] + a + b + c + e + f, g);
    wire::lemma_stands_split(body, 0, seq![5u8] + a + b + c + e, f);
    wire::lemma_stands_split(body, 0, seq![5u8] + a + b + c, e);
    wire::lemma_stands_split(body, 0, seq![5u8] + a + b, c);
    wire::lemma_stands_split(body, 0, seq![5u8] + a, b);
    wire::lemma_stands_split(body, 0, seq![5u8], a);
    wire::law_u8_round_trip(body, 0, 5);
    let q1 = 1 + a.len() as int;
    let q2 = q1 + b.len();
    let q3 = q2 + c.len();
    let q4 = q3 + e.len();
    let q5 = q4 + f.len();
    let q6 = q5 + g.len();
    wire::law_var_i32_round_trip(body, 1, from.0);
    wire::law_var_i32_round_trip(body, q1, from.1);
    wire::law_var_i32_round_trip(body, q2, from.2);
    wire::law_var_i32_round_trip(body, q3, to.0);
    wire::law_var_i32_round_trip(body, q4, to.1);
    wire::law_var_i32_round_trip(body, q5, to.2);
    lemma_past(body, 1, all, q1);
    lemma_past(body, q1, all.skip(1), q2);
    lemma_past(body, q2, all.skip(1).skip(1), q3);
    let left = all.skip(1).skip(1).skip(1);
    lemma_past(body, q3, left, q4);
    lemma_past(body, q4, left.skip(1), q5);
    lemma_past(body, q5, left.skip(1).skip(1), q6);
    lemma_past(body, q6, left.skip(1).skip(1).skip(1), body.len() as int);
    assert(left.skip(1).skip(1).skip(1).skip(1).len() == 0);
}

/// There are six kinds of annotations, and five actions on them.
pub proof fn law_unknown_kinds_are_refused(
    list: Seq<AnnotationView>,
    d: Seq<u8>,
    p: int,
    kind: u8,
)
    requires
        wire::stands(d, p, seq![kind]),
    ensures
        kind > 5 ==> annotations::body_at(d, p).0 is Err,
        kind > 4 ==> annotations::acted(list, d, p).0 is Err,
{
    wire::law_u8_round_trip(d, p, kind);
}

/// A batch of up to 4096 actions with their count in front is applied from the first on, and
/// what is relayed of it has the count of what is relayed in front.
pub proof fn law_batch_is_read(list: Seq<AnnotationView>, body: Seq<u8>, n: nat)
    requires
        n <= 4096,
        wire::stands(body, 0, wire::len_bytes(n)),
    ensures
        ({
            let (told, end) = annotations::updated(list, body);
            let (all, last) = annotations::acted_all(list, body, wire::len_bytes(n).len() as int, n);
            &&& end == last
            &&& match all {
                Err(why) => told == Err::<Option<Seq<u8>>, Seq<char>>(why),
                Ok((bytes, count)) => told == Ok::<Option<Seq<u8>>, Seq<char>>(
                    if count == 0 {
                        None
                    } else {
                        Some(wire::len_bytes(count) + bytes)
                    },
                ),
            }
        }),
{
    wire::law_var_len_round_trip(body, 0, n, "annotation actions", 4096);
    lemma_none_relayed(list, body, wire::len_bytes(n).len() as int, n);
}

/// An action that there is none of is refused by its number.
pub proof fn law_unknown_actions_are_refused(
    list: Seq<AnnotationView>,
    d: Seq<u8>,
    p: int,
    action: u8,
)
    requires
        wire::stands(d, p, seq![action]),
        action > 4,
    ensures
        annotations::acted(list, d, p).0 == Err::<(Seq<AnnotationView>, bool), Seq<char>>(
            "unknown annotation action: "@ + text::decimal(action as nat),
        ),
{
    wire::law_u8_round_trip(d, p, action);
}

} // verus!
