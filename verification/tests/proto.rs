use axiom_pumpkin::buf::Writer;
use axiom_pumpkin::permissions::{Restrictions, INFINITE_REACH_LIMIT};
use axiom_pumpkin::proto::{
    consume_dispatch_sends, failure, handle_hello, is_slow, key_of, new_handshake_token,
    read_hello, route, send_goodbye, supported_packets, token_of, top_up_dispatch_sends, Incoming,
    Message, Online, PlayerState, Players, Route, API_VERSION, DISPATCH_SENDS_PER_SECOND,
};
use axiom_pumpkin::tunnel::{
    split_frames, FRAME_FLAG_FIRST, FRAME_FLAG_LAST, MAX_FRAME_LEN, MAX_PACKET_LEN,
};

const KEY: (u64, u64) = (1, 2);

fn restrictions(allowed: &'static str) -> Restrictions {
    Restrictions {
        allowed: vec![allowed],
        denied: Vec::new(),
        infinite_reach_limit: INFINITE_REACH_LIMIT,
    }
}

fn online(token: i64) -> Online {
    Online { key: KEY, can_use: true, restrictions: Some(restrictions("all")), token }
}

fn hello(api_version: i32, token: i64) -> Vec<u8> {
    let mut w = Writer::new();
    w.var_i32(api_version).var_i32(4000).var_i32(770).i64(token);
    w.into_vec()
}

fn channels(messages: &[Message]) -> Vec<&'static str> {
    messages.iter().map(|m| m.channel).collect()
}

fn goodbye(reason: &str) -> Vec<u8> {
    let mut w = Writer::new();
    w.string(reason);
    w.into_vec()
}

/// Players of whom one is active.
fn active() -> Players {
    let mut players = Players::new();
    players.tick(vec![online(77)], true);
    players.handle_hello(KEY, &hello(API_VERSION, 77), true, restrictions("all")).unwrap();
    assert!(players.is_active(KEY));
    players
}

#[test]
fn the_handshake_enables_a_client() {
    let mut players = Players::new();
    let sent = players.tick(vec![online(77)], true);
    assert_eq!(sent.len(), 1);
    assert_eq!(sent[0].0, 0);
    assert_eq!(sent[0].1.channel, "axiom:hello");
    assert_eq!(sent[0].1.data, 77_i64.to_be_bytes());
    assert!(!players.is_active(KEY));
    // It is offered once.
    assert!(players.tick(vec![online(78)], true).is_empty());

    let greeting = players
        .handle_hello(KEY, &hello(API_VERSION, 77), true, restrictions("all"))
        .unwrap();
    assert!(greeting.kick.is_none());
    assert_eq!(
        channels(&greeting.messages),
        ["axiom:enable", "axiom:restrictions", "axiom:register_world_properties"]
    );
    let mut w = Writer::new();
    w.bool(true).u8(0).var_i32(2).i32(MAX_FRAME_LEN as i32).i32(MAX_PACKET_LEN as i32);
    w.var_i32(0).var_i32(0).var_i32(15);
    for id in supported_packets() {
        w.string(id);
    }
    assert_eq!(greeting.messages[0].data, w.into_vec());
    assert_eq!(greeting.messages[1].data, restrictions("all").encode());
    assert_eq!(greeting.messages[2].data, [0]);
    assert!(players.is_active(KEY));

    // The token works once.
    let again = players
        .handle_hello(KEY, &hello(API_VERSION, 77), true, restrictions("all"))
        .unwrap();
    assert_eq!(again.messages[0].data, goodbye("Invalid handshake ID"));
}

/// A hello that cannot be read, or of another version, leaves what is known of a player.
#[test]
fn an_unfit_hello_spends_no_token() {
    let mut players = Players::new();
    players.tick(vec![online(77)], true);
    assert!(players.handle_hello(KEY, &[10], true, restrictions("all")).is_err());
    let other = players.handle_hello(KEY, &hello(9, 77), true, restrictions("all")).unwrap();
    assert!(other.kick.is_some());
    assert!(!players.is_active(KEY));
    players.handle_hello(KEY, &hello(API_VERSION, 77), true, restrictions("all")).unwrap();
    assert!(players.is_active(KEY));
}

#[test]
fn a_hello_is_refused_for_its_reason() {
    let mut state = PlayerState::default();
    state.pending_handshake = Some(5);
    let old = handle_hello(&mut state, &hello(9, 5), true, restrictions("all")).unwrap();
    let text = "Unable to use Axiom, you're on an outdated version! Please update to the latest \
                version of Axiom to use it on this server. (C=9 S=10)";
    assert_eq!(old.kick.as_deref(), Some(text));
    assert_eq!(old.messages[0].data, goodbye(text));
    let new = handle_hello(&mut state, &hello(11, 5), true, restrictions("all")).unwrap();
    let text = "Unable to use Axiom, server hasn't updated Axiom yet. (C=11 S=10)";
    assert_eq!(new.kick.as_deref(), Some(text));

    let wrong = handle_hello(&mut state, &hello(10, 6), true, restrictions("all")).unwrap();
    assert_eq!(channels(&wrong.messages), ["axiom:goodbye"]);
    assert_eq!(wrong.messages[0].data, goodbye("Invalid handshake ID"));
    assert_eq!(state.pending_handshake, Some(5));

    let barred = handle_hello(&mut state, &hello(10, 5), false, restrictions("all")).unwrap();
    assert_eq!(barred.messages[0].data, goodbye("Missing axiom.use permission"));
    assert_eq!(state.pending_handshake, None);
    assert!(!state.active);

    let short = handle_hello(&mut state, &[10], true, restrictions("all"));
    assert_eq!(short.err().as_deref(), Some("unexpected end of buffer"));
}

#[test]
fn a_hello_counts_what_trails_it() {
    let mut body = hello(10, -3);
    body.extend_from_slice(&[0, 0]);
    let read = read_hello(&body).unwrap();
    assert_eq!((read.api_version, read.token, read.trailing), (10, -3, 2));
}

#[test]
fn a_player_without_permission_is_told_once() {
    let mut players = Players::new();
    let barred = || Online { key: KEY, can_use: false, restrictions: None, token: 1 };
    let sent = players.tick(vec![barred()], true);
    assert_eq!(sent.len(), 1);
    assert_eq!(
        sent[0].1.data,
        goodbye(
            "You don't have permission to use Axiom. Give yourself /op or the axiom.default \
             permission"
        )
    );
    assert!(players.tick(vec![barred()], true).is_empty());
    // Whoever gains it is offered a handshake, whatever they were told before.
    assert_eq!(players.tick(vec![online(5)], true)[0].1.channel, "axiom:hello");
}

#[test]
fn losing_permission_shuts_a_client_down() {
    let mut players = active();
    let barred = Online { key: KEY, can_use: false, restrictions: None, token: 1 };
    let sent = players.tick(vec![barred], true);
    assert_eq!(sent.len(), 1);
    assert_eq!(sent[0].1.channel, "axiom:enable");
    assert_eq!(sent[0].1.data, [0]);
    assert!(!players.is_active(KEY));
}

#[test]
fn restrictions_are_told_when_they_change() {
    let mut players = active();
    let told = |sent: Vec<(usize, Message)>| {
        sent.into_iter().filter(|(_, m)| m.channel == "axiom:restrictions").count()
    };
    assert_eq!(told(players.tick(vec![online(1)], true)), 0);
    let changed =
        || Online { key: KEY, can_use: true, restrictions: Some(restrictions("use")), token: 1 };
    assert_eq!(told(players.tick(vec![changed()], true)), 1);
    assert_eq!(told(players.tick(vec![changed()], true)), 0);
    assert_eq!(told(players.tick(vec![changed()], false)), 0);
}

#[test]
fn who_leaves_is_forgotten() {
    let mut players = active();
    players.tick(Vec::new(), false);
    assert!(players.is_active(KEY));
    players.tick(Vec::new(), true);
    assert!(!players.is_active(KEY));
    let mut players = active();
    players.clear();
    assert!(!players.is_active(KEY));
}

#[test]
fn the_budget_grows_by_a_tick_and_is_bounded() {
    let mut state = PlayerState::default();
    let first = top_up_dispatch_sends(&mut state);
    assert_eq!(first.len(), 1);
    assert_eq!(first[0].channel, "axiom:update_available_dispatch_sends");
    let mut w = Writer::new();
    w.var_i32(1024).var_i32(1024);
    assert_eq!(first[0].data, w.into_vec());
    assert_eq!(state.dispatch_sends_20, Some(20480));
    assert!(top_up_dispatch_sends(&mut state).is_empty());

    assert!(consume_dispatch_sends(&mut state, 100, 1024));
    assert_eq!(state.dispatch_sends_20, Some(18480));
    let grown = top_up_dispatch_sends(&mut state);
    assert_eq!(state.dispatch_sends_20, Some(18480 + DISPATCH_SENDS_PER_SECOND));
    // 18480 / 20 = 924, and 19504 / 20 = 975.
    let mut w = Writer::new();
    w.var_i32(51).var_i32(1024);
    assert_eq!(grown[0].data, w.into_vec());
}

#[test]
fn spending_past_the_limit_is_refused() {
    let mut state = PlayerState::default();
    // The client believes it has less left than the server does.
    assert!(consume_dispatch_sends(&mut state, 1, 3));
    assert_eq!(state.dispatch_sends_20, Some(60));
    assert!(consume_dispatch_sends(&mut state, 1027, 1024));
    assert_eq!(state.dispatch_sends_20, Some(-20480));
    assert!(!consume_dispatch_sends(&mut state, 1, 1024));
    assert!(!consume_dispatch_sends(&mut state, i32::MAX, i32::MIN));
    assert_eq!(state.dispatch_sends_20, Some(i32::MIN));

    let mut players = Players::new();
    assert_eq!(players.consume_dispatch_sends(KEY, 2048, 1024), Ok(()));
    assert_eq!(
        players.consume_dispatch_sends(KEY, 1, 1024),
        Err("you are sending updates too fast".to_owned())
    );
    players.set_no_physical_trigger(KEY, true);
}

#[test]
fn tokens_are_never_zero() {
    assert_eq!(token_of(Some(0)), 1);
    assert_eq!(token_of(Some(-7)), -7);
    assert_eq!(token_of(None), 1);
    let tokens: Vec<i64> = (0..8).map(|_| new_handshake_token()).collect();
    assert!(tokens.iter().all(|&token| token != 0));
    assert!(tokens.iter().any(|&token| token != tokens[0]), "drawn at random");
    let player = Online::new(KEY, true, None);
    assert!(player.token != 0 && player.key == KEY && player.can_use);
}

#[test]
fn packets_are_passed_on_from_active_clients() {
    let mut players = Players::new();
    assert!(matches!(players.on_payload(KEY, "axiom:set_block", &[1]), Incoming::Ignored));
    assert!(matches!(
        players.on_payload(KEY, "axiom:hello", &[1]),
        Incoming::Packet(p) if p.id == "axiom:hello" && p.body == [1]
    ));
    assert!(matches!(players.on_payload(KEY, "axiom:tunnel", &[]), Incoming::Ignored));

    let mut players = active();
    assert!(matches!(
        players.on_payload(KEY, "axiom:set_block", &[1]),
        Incoming::Packet(p) if p.id == "axiom:set_block" && p.body == [1]
    ));
    assert!(matches!(
        players.on_payload(KEY, "axiom:tunnel", &[]),
        Incoming::Kicked(why) if why == "Axiom: sent empty tunnel frame"
    ));
}

#[test]
fn a_tunnelled_packet_comes_out_whole() {
    let mut players = active();
    let body = vec![3_u8; MAX_FRAME_LEN + 10];
    let mut w = Writer::new();
    w.string("axiom:set_buffer").i32(body.len() as i32).u8(0).bytes(&body);
    let frames = split_frames(&w.into_vec());
    assert_eq!(frames.len(), 2);
    assert!(matches!(players.on_payload(KEY, "axiom:tunnel", &frames[0]), Incoming::Ignored));
    assert!(matches!(
        players.on_payload(KEY, "axiom:tunnel", &frames[1]),
        Incoming::Packet(p) if p.id == "axiom:set_buffer" && p.body == body
    ));
    let broken = [FRAME_FLAG_FIRST | FRAME_FLAG_LAST, 200];
    assert!(matches!(
        players.on_payload(KEY, "axiom:tunnel", &broken),
        Incoming::Kicked(why) if why.starts_with("Axiom: malformed tunnel packet: ")
    ));
}

#[test]
fn packets_are_routed_by_their_id() {
    assert_eq!(route("axiom:hello"), Some(Route::Hello));
    assert_eq!(route("axiom:annotation_update"), Some(Route::AnnotationUpdate));
    assert_eq!(route("axiom:tunnel"), None);
    assert_eq!(route("minecraft:brand"), None);
    // Every packet that a client is told of has a handler.
    for id in supported_packets() {
        assert!(id == "axiom:tunnel" || route(id).is_some(), "{id}");
    }
    assert_eq!(supported_packets().len(), 15);
    assert_eq!(route("axiom:spawn_entity"), None);
    assert_eq!(
        failure("axiom:set_block", "invalid utf-8"),
        "Axiom: error while processing axiom:set_block: invalid utf-8"
    );
}

#[test]
fn small_things_have_their_values() {
    assert_eq!(key_of(3, 4), (3, 4));
    assert!(is_slow(0) && is_slow(40) && !is_slow(41));
    let message = send_goodbye("bye");
    assert_eq!(message.channel, "axiom:goodbye");
    assert_eq!(message.data, [3, b'b', b'y', b'e']);
}
