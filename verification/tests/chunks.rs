use axiom_pumpkin::buf::{Reader, Writer};
use axiom_pumpkin::chunks::{
    request_chunk_data, respond, section_for_client, ChunkResponse, FoundEntity, FoundSection,
    MAX_RESPONSE_BYTES, MAX_SECTIONS_PER_REQUEST,
};
use axiom_pumpkin::edits::MIN_POSITION_LONG;
use axiom_pumpkin::nbt::{compress_raw, to_named_root};
use axiom_pumpkin::palette::{read_section, SECTION_VOLUME};

const HERE: &str = "minecraft:overworld";

fn request(entities: &[i64], sections: &[i64]) -> Vec<u8> {
    let mut w = Writer::new();
    w.i64(77).string("overworld").bool(true).var_i32(entities.len() as i32);
    for &key in entities {
        w.i64(key);
    }
    w.var_i32(sections.len() as i32);
    for &key in sections {
        w.i64(key);
    }
    w.into_vec()
}

fn empty_answer(id: i64) -> Vec<u8> {
    let mut w = Writer::new();
    w.i64(id).i64(MIN_POSITION_LONG).i64(MIN_POSITION_LONG).bool(true);
    w.into_vec()
}

#[test]
fn a_request_names_what_it_wants() {
    let sections: Vec<i64> = (0..200).collect();
    let asked = request_chunk_data(&request(&[5, 6], &sections), true, true, HERE).unwrap();
    assert_eq!(asked.id, 77);
    let wanted = asked.wanted.expect("allowed");
    assert_eq!(wanted.entities, [5, 6]);
    assert_eq!(wanted.sections, &sections[..MAX_SECTIONS_PER_REQUEST]);
    let asked = request_chunk_data(&request(&[5, 6], &[1]), true, false, HERE).unwrap();
    assert!(asked.wanted.expect("allowed").entities.is_empty());
}

/// The client waits on a response for every request, so a refusal is answered too.
#[test]
fn a_refusal_is_answered() {
    let body = request(&[5], &[6]);
    for (allowed, dimension) in [(false, HERE), (true, "minecraft:the_end")] {
        let asked = request_chunk_data(&body, allowed, true, dimension).unwrap();
        assert!(asked.wanted.is_none());
        assert_eq!(respond(asked.id, &Vec::new(), &Vec::new()), [empty_answer(77)]);
    }
    // Nothing but the id is read of a request that is refused.
    assert!(request_chunk_data(&body[..8], false, true, HERE).is_ok());
    assert!(request_chunk_data(&body[..8], true, true, HERE).is_err());
    let mut w = Writer::new();
    w.i64(1).string("overworld").bool(true).var_i32(1025);
    assert_eq!(
        request_chunk_data(&w.into_vec(), true, true, HERE).err().as_deref(),
        Some("block entity list too large: 1025 > 1024")
    );
}

#[test]
fn a_response_holds_what_was_found() {
    let nbt = vec![10_u8, 1, 0, 1, b'a', 7, 0];
    let entities = vec![
        FoundEntity { key: 5, nbt: Some(nbt.clone()) },
        FoundEntity { key: 6, nbt: None },
        FoundEntity { key: 7, nbt: Some(vec![3, 0, 0, 0, 1]) },
    ];
    let mut states = vec![0_u16; SECTION_VOLUME];
    states[17] = 4;
    let varied: Vec<u16> = (0..SECTION_VOLUME).map(|i| i as u16).collect();
    let sections = vec![
        FoundSection { key: 1, loaded: Some(Some(states.clone())) },
        FoundSection { key: 2, loaded: Some(None) },
        FoundSection { key: 3, loaded: None },
        FoundSection { key: 4, loaded: Some(Some(vec![0; SECTION_VOLUME])) },
        FoundSection { key: 5, loaded: Some(Some(varied)) },
    ];
    let payloads = respond(9, &entities, &sections);
    assert_eq!(payloads.len(), 1);
    let mut r = Reader::new(&payloads[0]);
    assert_eq!(r.i64(), Ok(9));
    assert_eq!(r.i64(), Ok(5));
    let named = to_named_root(&nbt).unwrap();
    assert_eq!(r.var_i32(), Ok(named.len() as i32));
    assert_eq!(r.u8(), Ok(0));
    assert_eq!(r.byte_array(1000), Ok(compress_raw(&named).as_slice()));
    assert_eq!(r.i64(), Ok(MIN_POSITION_LONG));
    assert_eq!(r.i64(), Ok(1));
    assert_eq!(r.bool(), Ok(true));
    assert_eq!(read_section(&mut r, 15), Ok(states));
    assert_eq!(r.i64(), Ok(2));
    assert_eq!(r.bool(), Ok(false));
    assert_eq!(r.i64(), Ok(4));
    assert_eq!(r.bool(), Ok(false));
    assert_eq!(r.i64(), Ok(MIN_POSITION_LONG));
    assert_eq!(r.bool(), Ok(true));
    assert!(r.is_empty());
}

#[test]
fn a_response_is_split_as_it_fills() {
    let mut response = ChunkResponse::new(3);
    let entry = vec![1_u8; MAX_RESPONSE_BYTES / 2];
    response.push(&entry);
    response.push(&entry);
    response.end_entities();
    response.push(&entry);
    response.push(&entry);
    let payloads = response.finish();
    assert_eq!(payloads.len(), 4);
    for (i, payload) in payloads.iter().enumerate() {
        assert!(payload.len() <= MAX_RESPONSE_BYTES + 17);
        assert_eq!(&payload[..8], &3_i64.to_be_bytes());
        assert_eq!(payload[payload.len() - 1], u8::from(i == 3));
        let end = payload.len() - 1;
        assert_eq!(&payload[end - 8..end], &MIN_POSITION_LONG.to_be_bytes());
        // Each list is closed: the block entities behind an entry, or before one.
        let at = if i < 2 { end - 16 } else { 8 };
        assert_eq!(&payload[at..at + 8], &MIN_POSITION_LONG.to_be_bytes());
        assert_eq!(payload.len(), 8 + entry.len() + 17);
    }
}

#[test]
fn air_is_not_worth_sending() {
    let mut states = vec![0_u16; SECTION_VOLUME];
    assert!(section_for_client(&Some(states.clone())).is_none());
    assert!(section_for_client(&None).is_none());
    assert!(section_for_client(&Some(vec![1; 16])).is_none());
    states[4095] = 1;
    assert_eq!(section_for_client(&Some(states.clone())), Some(&states));
}
