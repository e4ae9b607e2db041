use axiom_pumpkin::annotations::{
    handle, positioned_offset, send_all, take_body, Annotation, Worlds, ENABLED, MAX_ANNOTATIONS,
    POSITION_BYTES, ROTATION_BYTES,
};
use axiom_pumpkin::buf::{Error, Reader, Writer};

/// A box outline: six varints and a colour, and nothing that can be moved.
fn box_outline() -> Vec<u8> {
    let mut w = Writer::new();
    w.u8(5);
    for value in [1, 2, 3, 4, 5, 6] {
        w.var_i32(value);
    }
    w.i32(0x00FF_00FF);
    w.into_vec()
}

/// A text annotation, which is one of the two kinds that carry a transform.
fn text(position: [f32; 3], rotation: [f32; 4]) -> Vec<u8> {
    let mut w = Writer::new();
    w.u8(1).string("hello");
    for value in position {
        w.f32_bits(value.to_bits());
    }
    for value in rotation {
        w.f32_bits(value.to_bits());
    }
    w.u8(0)
        .f32_bits(0.0_f32.to_bits())
        .f32_bits(1.0_f32.to_bits())
        .u8(0)
        .i32(-1)
        .bool(true);
    w.into_vec()
}

/// Bodies sit inside a stream of actions, so a body measured wrong desyncs
/// everything after it.
#[test]
fn measures_bodies_exactly() {
    for body in [box_outline(), text([1.0, 2.0, 3.0], [0.0; 4])] {
        let mut stream = body.clone();
        stream.extend_from_slice(b"NEXT");
        let mut r = Reader::new(&stream);
        assert_eq!(take_body(&mut r), Ok(body.as_slice()));
        assert_eq!(r.rest(), b"NEXT");
    }
}

#[test]
fn finds_the_transform_only_where_there_is_one() {
    let body = text([1.0, 2.0, 3.0], [4.0, 5.0, 6.0, 7.0]);
    let offset = positioned_offset(&body).expect("text carries a transform");
    assert_eq!(&body[offset..offset + 4], &1.0_f32.to_be_bytes());
    assert_eq!(
        &body[offset + POSITION_BYTES..offset + POSITION_BYTES + 4],
        &4.0_f32.to_be_bytes()
    );
    assert!(positioned_offset(&box_outline()).is_none());
}

#[test]
fn rejects_unknown_and_truncated_bodies() {
    assert!(take_body(&mut Reader::new(&[99])).is_err());
    let body = box_outline();
    assert!(take_body(&mut Reader::new(&body[..body.len() - 2])).is_err());
}

#[test]
fn every_kind_of_body_is_measured() {
    let line = {
        let mut w = Writer::new();
        w.u8(0).var_i32(1).var_i32(2).var_i32(3).f32_bits(0).i32(7).byte_array(&[1, 2]);
        w.into_vec()
    };
    let image = {
        let mut w = Writer::new();
        w.u8(2).string("url").bytes(&[0; POSITION_BYTES + ROTATION_BYTES]);
        w.u8(0).f32_bits(0).f32_bits(0).f32_bits(0).u8(1);
        w.into_vec()
    };
    let freehand = {
        let mut w = Writer::new();
        w.u8(3).var_i32(1).var_i32(2).var_i32(3).var_i32(4).i32(7).byte_array(&[5]);
        w.into_vec()
    };
    let lines = {
        let mut w = Writer::new();
        w.u8(4).var_i32(2).i64(1).i64(2).i32(7);
        w.into_vec()
    };
    for body in [line, image, freehand, lines] {
        assert_eq!(take_body(&mut Reader::new(&body)), Ok(body.as_slice()));
        assert_eq!(take_body(&mut Reader::new(&body[..body.len() - 1])), Err(Error::Eof));
    }
    assert_eq!(
        take_body(&mut Reader::new(&[6])),
        Err(Error::TooLarge { what: "annotation type", len: 6, max: 5 })
    );
    assert!(ENABLED);
}

fn create(w: &mut Writer, uuid: (u64, u64), body: &[u8]) {
    w.u8(0).uuid(uuid.0, uuid.1).bytes(body);
}

fn uuids(list: &[Annotation]) -> Vec<(u64, u64)> {
    list.iter().map(|a| a.uuid).collect()
}

#[test]
fn actions_are_applied_and_relayed() {
    let mut list = Vec::new();
    let mut w = Writer::new();
    w.var_i32(3);
    create(&mut w, (1, 1), &box_outline());
    create(&mut w, (2, 2), &text([1.0, 2.0, 3.0], [0.0; 4]));
    // Creating one again replaces it, at the end of the list.
    create(&mut w, (1, 1), &box_outline());
    let batch = w.into_vec();
    assert_eq!(handle(&mut list, &batch), Ok(Some(batch.clone())));
    assert_eq!(uuids(&list), [(2, 2), (1, 1)]);

    let mut w = Writer::new();
    w.var_i32(2);
    w.u8(2).uuid(2, 2);
    for value in [9.0_f32, 8.0, 7.0] {
        w.f32_bits(value.to_bits());
    }
    w.u8(4).uuid(2, 2);
    for value in [1.0_f32, 2.0, 3.0, 4.0] {
        w.f32_bits(value.to_bits());
    }
    let batch = w.into_vec();
    assert_eq!(handle(&mut list, &batch), Ok(Some(batch)));
    assert_eq!(list[0].body, text([9.0, 8.0, 7.0], [1.0, 2.0, 3.0, 4.0]));

    let mut w = Writer::new();
    w.var_i32(1).u8(1).uuid(2, 2);
    let batch = w.into_vec();
    assert_eq!(handle(&mut list, &batch), Ok(Some(batch)));
    assert_eq!(uuids(&list), [(1, 1)]);

    assert_eq!(handle(&mut list, &[1, 3]), Ok(Some(vec![1, 3])));
    assert!(list.is_empty());
    assert_eq!(handle(&mut list, &[0]), Ok(None));
}

#[test]
fn malformed_batches_say_why() {
    let mut list = Vec::new();
    assert_eq!(handle(&mut list, &[1, 9]), Err("unknown annotation action: 9".to_owned()));
    assert_eq!(handle(&mut list, &[1, 1]), Err("unexpected end of buffer".to_owned()));
    let mut w = Writer::new();
    w.var_i32(MAX_ANNOTATIONS as i32 + 1);
    assert_eq!(
        handle(&mut list, &w.into_vec()),
        Err("annotation actions too large: 4097 > 4096".to_owned())
    );
}

#[test]
fn a_full_world_takes_no_more() {
    let mut list: Vec<Annotation> = (0..MAX_ANNOTATIONS as u64)
        .map(|i| Annotation { uuid: (i, i), body: box_outline() })
        .collect();
    let mut w = Writer::new();
    w.var_i32(1);
    create(&mut w, (7, 99_999), &box_outline());
    // Nothing was accepted, so nothing is relayed.
    assert_eq!(handle(&mut list, &w.into_vec()), Ok(None));
    assert_eq!(list.len(), MAX_ANNOTATIONS);
}

/// What is sent to a player who enters brings a client to the state the server holds.
#[test]
fn the_whole_state_is_a_clear_and_a_create_each() {
    let list = vec![
        Annotation { uuid: (1, 2), body: box_outline() },
        Annotation { uuid: (3, 4), body: text([0.0; 3], [0.0; 4]) },
    ];
    let mut w = Writer::new();
    w.var_i32(3).u8(3);
    create(&mut w, (1, 2), &box_outline());
    create(&mut w, (3, 4), &text([0.0; 3], [0.0; 4]));
    let state = send_all(&list);
    assert_eq!(state, w.into_vec());

    let mut client = vec![Annotation { uuid: (8, 8), body: box_outline() }];
    handle(&mut client, &state).unwrap();
    assert_eq!(uuids(&client), uuids(&list));
    assert_eq!(client[1].body, list[1].body);
}

/// A client that applies what is relayed ends up with what the server holds.
#[test]
fn what_is_relayed_brings_the_same() {
    let mut server = Vec::new();
    let mut client = Vec::new();
    let mut w = Writer::new();
    w.var_i32(3);
    create(&mut w, (1, 1), &text([1.0; 3], [0.0; 4]));
    w.u8(2).uuid(1, 1).bytes(&[7; POSITION_BYTES]);
    w.u8(4).uuid(5, 5).bytes(&[7; ROTATION_BYTES]);
    let relayed = handle(&mut server, &w.into_vec()).unwrap().expect("accepted");
    handle(&mut client, &relayed).unwrap();
    assert_eq!(client[0].uuid, server[0].uuid);
    assert_eq!(client[0].body, server[0].body);
}

#[test]
fn worlds_are_kept_apart() {
    let mut worlds = Worlds::new();
    let mut w = Writer::new();
    w.var_i32(1);
    create(&mut w, (1, 1), &box_outline());
    let batch = w.into_vec();
    assert_eq!(worlds.update("minecraft:overworld", &batch), Ok(Some(batch)));
    assert_eq!(worlds.state("minecraft:the_nether"), [1, 3]);
    assert!(worlds.state("minecraft:overworld").len() > 2);
}
