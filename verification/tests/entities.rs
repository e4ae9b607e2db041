use axiom_pumpkin::buf::{Reader, Writer};
use axiom_pumpkin::chunks::MAX_RESPONSE_BYTES;
use axiom_pumpkin::entities::{
    delete_entity, editable, entities_by_uuid, entity_data, manipulate_entity, read_uuid_list,
    request_entity_data, EntityData, EntityInfo, Match, PassengerChange,
};

fn list(uuids: &[(u64, u64)]) -> Vec<u8> {
    let mut w = Writer::new();
    w.var_i32(uuids.len() as i32);
    for &(high, low) in uuids {
        w.uuid(high, low);
    }
    w.into_vec()
}

#[test]
fn entities_are_found_by_their_uuid() {
    let world: Vec<EntityInfo> = [((1, 1), false), ((2, 2), true), ((3, 3), false)]
        .into_iter()
        .map(|(uuid, is_player)| EntityInfo { uuid, is_player })
        .collect();
    let wanted = vec![(3, 3), (9, 9), (2, 2), (3, 3)];
    assert_eq!(
        entities_by_uuid(&world, &wanted),
        [Match { wanted: 2, entity: 1 }, Match { wanted: 0, entity: 2 }]
    );
    // A player is never touched.
    assert_eq!(editable(&world, &wanted), [Match { wanted: 0, entity: 2 }]);
}

#[test]
fn uuid_lists_are_bounded() {
    assert_eq!(read_uuid_list(&mut Reader::new(&list(&[(1, 2), (3, 4)]))), Ok(vec![(1, 2), (3, 4)]));
    assert_eq!(delete_entity(&list(&[(1, 2)]), true), Ok(Some(vec![(1, 2)])));
    assert_eq!(delete_entity(&list(&[(1, 2)]), false), Ok(None));
    let mut w = Writer::new();
    w.var_i32(1025);
    assert_eq!(
        delete_entity(&w.into_vec(), true),
        Err("uuid list too large: 1025 > 1024".to_owned())
    );
    assert!(delete_entity(&[1, 0], true).is_err());
}

#[test]
fn a_refused_request_is_answered_with_nothing() {
    let mut body = 8_i64.to_be_bytes().to_vec();
    let refused = request_entity_data(&body, false).unwrap();
    assert_eq!(refused.id, 8);
    assert!(refused.wanted.is_none());
    let mut w = Writer::new();
    w.i64(8).bool(true).var_i32(0);
    assert_eq!(entity_data(refused.id, Vec::new()), [w.into_vec()]);

    assert!(request_entity_data(&body, true).is_err());
    body.extend_from_slice(&list(&[(5, 6)]));
    assert_eq!(request_entity_data(&body, true).unwrap().wanted, Some(vec![(5, 6)]));
}

/// However entities are split across payloads, each is sent once.
#[test]
fn entity_data_is_split_as_it_fills() {
    let entity = |low: u64, len: usize| EntityData { uuid: (0, low), nbt: vec![low as u8; len] };
    let payloads = entity_data(
        4,
        vec![
            entity(1, 10),
            entity(2, MAX_RESPONSE_BYTES),
            entity(3, MAX_RESPONSE_BYTES - 11),
            entity(4, 1),
            entity(5, 1),
        ],
    );
    let sizes = [MAX_RESPONSE_BYTES, MAX_RESPONSE_BYTES, 1];
    let counts = [1, 3, 1];
    assert_eq!(payloads.len(), 3);
    for (i, payload) in payloads.iter().enumerate() {
        let mut r = Reader::new(payload);
        assert_eq!(r.i64(), Ok(4));
        assert_eq!(r.bool(), Ok(i == 2));
        assert_eq!(r.var_i32(), Ok(counts[i]));
        assert_eq!(r.remaining(), sizes[i] + 16 * counts[i] as usize);
    }
    assert_eq!(&payloads[0][10..26], &[0, 0, 0, 0, 0, 0, 0, 0, 0, 0, 0, 0, 0, 0, 0, 2]);
    assert_eq!(payloads[2][26], 5);
}

/// A compound of bytes under these names.
fn tag(names: &[&str]) -> Vec<u8> {
    let mut w = Writer::new();
    w.u8(10);
    for name in names {
        w.u8(1).i16(name.len() as i16).bytes(name.as_bytes()).u8(1);
    }
    w.u8(0);
    w.into_vec()
}

/// A tag that no entity takes changes nothing, and what comes with it is done all the same.
#[test]
fn nbt_that_is_no_compound_is_left_out() {
    for tag in [vec![3_u8, 0, 0, 0, 1], vec![1, 7], vec![8, 0, 1, b'a']] {
        let mut w = Writer::new();
        w.var_i32(2).uuid(1, 1).u8(0xFF).bytes(&tag).var_i32(1);
        w.uuid(2, 2).u8(0xFF).u8(0).var_i32(2).var_i32(1).uuid(8, 8);
        let body = w.into_vec();
        let asked = manipulate_entity(&body, true).unwrap().expect("allowed");
        assert_eq!(asked.len(), 2);
        assert!(asked[0].merge.is_none());
        assert!(matches!(asked[0].passengers, PassengerChange::RemoveAll));
        assert_eq!(asked[1].uuid, (2, 2));
        assert!(matches!(manipulate_entity(&body, false), Ok(None)));
    }
}

#[test]
fn manipulations_are_read_whole() {
    let mut w = Writer::new();
    w.var_i32(3);
    // Moved, relative in y and yaw; no NBT; everybody gets off.
    w.uuid(1, 1).u8(0b01010);
    for value in [1.0_f64, 2.0, 3.0] {
        w.f64_bits(value.to_bits());
    }
    w.f32_bits(90.0_f32.to_bits()).f32_bits(0.5_f32.to_bits()).u8(0).var_i32(1);
    // Left where it is, with NBT and riders.
    w.uuid(2, 2).u8(0xFF).bytes(&tag(&["Glowing", "Health"])).var_i32(2).var_i32(1).uuid(8, 8);
    w.uuid(3, 3).u8(0x80).u8(0).var_i32(3).var_i32(0);
    let body = w.into_vec();

    let asked = manipulate_entity(&body, true).unwrap().expect("allowed");
    assert_eq!(asked.len(), 3);
    let movement = asked[0].movement.expect("moved");
    assert_eq!(
        [
            movement.relative_x,
            movement.relative_y,
            movement.relative_z,
            movement.relative_yaw,
            movement.relative_pitch,
        ],
        [false, true, false, true, false]
    );
    assert_eq!(f64::from_bits(movement.z), 3.0);
    assert_eq!(f32::from_bits(movement.pitch), 0.5);
    assert!(asked[0].merge.is_none());
    assert!(matches!(asked[0].passengers, PassengerChange::RemoveAll));

    assert_eq!(asked[1].uuid, (2, 2));
    assert!(asked[1].movement.is_none());
    // A client may make an entity glow, and may not set its health.
    assert_eq!(asked[1].merge, Some(tag(&["Glowing"])));
    assert!(matches!(&asked[1].passengers, PassengerChange::Add(list) if *list == [(8, 8)]));
    assert!(matches!(&asked[2].passengers, PassengerChange::Remove(list) if list.is_empty()));

    assert!(manipulate_entity(&body, false).unwrap().is_none());
    assert!(manipulate_entity(&body[..body.len() - 1], false).is_err());
}

#[test]
fn an_unknown_passenger_manipulation_is_refused() {
    for (kind, text) in [(4, "4"), (-1, "-1")] {
        let mut w = Writer::new();
        w.var_i32(1).uuid(1, 1).u8(0xFF).u8(0).var_i32(kind);
        assert_eq!(
            manipulate_entity(&w.into_vec(), true).err(),
            Some(format!("unknown passenger manipulation: {text}"))
        );
    }
    let mut w = Writer::new();
    w.var_i32(1).uuid(1, 1).u8(0xFF).u8(0).var_i32(0);
    let asked = manipulate_entity(&w.into_vec(), true).unwrap().expect("allowed");
    assert!(matches!(asked[0].passengers, PassengerChange::Keep));
}
