//! Laws of the handshake, the budget and the dispatch of packets.

use vstd::prelude::*;
use vstd::string::*;

use crate::buf;
use crate::permissions;
use crate::permissions::RestrictionsView;
use crate::proto;
use crate::proto::{Hello, MessageView, OnlineView, PlayerKey, Route, StateView};
use crate::text;
use crate::tunnel;
use crate::wire;

verus! {

/// A hello is read as what it was made of: the revision of the protocol, two versions that do
/// not count, and the token. What stands behind it is only counted.
pub proof fn law_hello_is_read(
    body: Seq<u8>,
    api_version: i32,
    data_version: i32,
    protocol_version: i32,
    token: i64,
    rest: Seq<u8>,
)
    requires
        body.len() <= usize::MAX,
        body == wire::var_i32_bytes(api_version) + wire::var_i32_bytes(data_version)
            + wire::var_i32_bytes(protocol_version) + wire::i64_bytes(token) + rest,
    ensures
        proto::hello_in(body) == Ok::<Hello, buf::Error>(
            Hello { api_version, token, trailing: rest.len() as usize },
        ),
{
    let a = wire::var_i32_bytes(api_version);
    let b = wire::var_i32_bytes(data_version);
    let c = wire::var_i32_bytes(protocol_version);
    let e = wire::i64_bytes(token);
    assert(body.subrange(0, body.len() as int) =~= body);
    wire::lemma_stands_split(body, 0, a + b + c + e, rest);
    wire::lemma_stands_split(body, 0, a + b + c, e);
    wire::lemma_stands_split(body, 0, a + b, c);
    wire::lemma_stands_split(body, 0, a, b);
    wire::law_var_i32_round_trip(body, 0, api_version);
    wire::law_var_i32_round_trip(body, a.len() as int, data_version);
    wire::law_var_i32_round_trip(body, (a.len() + b.len()) as int, protocol_version);
    wire::law_i64_round_trip(body, (a.len() + b.len() + c.len()) as int, token);
}

/// What enables a client, field by field: that it is enabled, the version of the configuration,
/// that of blueprints, the longest frame, the largest packet, no custom blocks, no set of ignored
/// rotations, and the packets that are understood.
pub open spec fn enabling() -> Seq<u8> {
    seq![1u8, 0u8, 2u8] + wire::i32_bytes(31000) + wire::i32_bytes(2_097_152) + seq![0u8, 0u8]
        + wire::len_bytes(proto::supported().len()) + permissions::names_bytes(
        permissions::texts(proto::supported()),
    )
}

/// A client that echoes the token it was offered, of the right revision, and whose player may use
/// Axiom, becomes active: the token is spent, its restrictions are known, its tunnel starts over,
/// and nothing else about it changes. It is sent what enables it, then its restrictions, then an
/// empty list of world properties, and is not kicked.
pub proof fn law_echo_activates(state: StateView, hello: Hello, restrictions: RestrictionsView)
    requires
        hello.api_version == 10,
        state.pending_handshake == Some(hello.token),
    ensures
        ({
            let (next, messages, kick) = proto::greeted(state, hello, true, restrictions);
            &&& next.active
            &&& next.pending_handshake is None
            &&& next.restrictions == Some(restrictions)
            &&& next.tunnel.pending.len() == 0 && !next.tunnel.open && !next.tunnel.skipping
            &&& next.told_disabled == state.told_disabled
            &&& next.dispatch_sends_20 == state.dispatch_sends_20
            &&& next.no_physical_trigger == state.no_physical_trigger
            &&& messages == seq![
                MessageView { channel: "axiom:enable"@, data: enabling() },
                MessageView {
                    channel: "axiom:restrictions"@,
                    data: permissions::restrictions_bytes(restrictions),
                },
                MessageView { channel: "axiom:register_world_properties"@, data: seq![0u8] },
            ]
            &&& kick is None
        }),
{
    assert(wire::var_i32_bytes(2) =~= seq![2u8]);
    assert(wire::var_i32_bytes(0) =~= seq![0u8]);
    assert(proto::enable_bytes() =~= enabling());
}

/// A client of another revision is told so and kicked with the same words, one that echoes
/// another token than it was offered is told so, and so is one whose player may not use Axiom,
/// whose token is spent. Neither becomes active, and nothing else about it changes.
pub proof fn law_unfit_hello_is_refused(
    state: StateView,
    hello: Hello,
    can_use: bool,
    restrictions: RestrictionsView,
)
    requires
        hello.api_version != 10 || state.pending_handshake != Some(hello.token) || !can_use,
    ensures
        ({
            let (next, messages, kick) = proto::greeted(state, hello, can_use, restrictions);
            &&& messages.len() == 1
            &&& messages[0].channel == "axiom:goodbye"@
            &&& if hello.api_version != 10 {
                &&& next == state
                &&& kick matches Some(why) && messages[0].data == wire::string_bytes(why)
            } else if state.pending_handshake != Some(hello.token) {
                &&& next == state
                &&& kick is None
                &&& messages[0].data == wire::string_bytes("Invalid handshake ID"@)
            } else {
                &&& next == (StateView { pending_handshake: None, ..state })
                &&& kick is None
                &&& messages[0].data == wire::string_bytes("Missing axiom.use permission"@)
            }
        }),
{
}

/// Every packet goes to the handler of its name, and to no other.
pub proof fn law_packets_go_where_they_are_named(id: Seq<char>)
    ensures
        proto::route_of(id) == Some(Route::Hello) <==> id == "axiom:hello"@,
        proto::route_of(id) == Some(Route::SetBlock) <==> id == "axiom:set_block"@,
        proto::route_of(id) == Some(Route::SetBuffer) <==> id == "axiom:set_buffer"@,
        proto::route_of(id) == Some(Route::SetGamemode) <==> id == "axiom:set_gamemode"@,
        proto::route_of(id) == Some(Route::SetFlySpeed) <==> id == "axiom:set_fly_speed"@,
        proto::route_of(id) == Some(Route::Teleport) <==> id == "axiom:teleport"@,
        proto::route_of(id) == Some(Route::SetWorldTime) <==> id == "axiom:set_world_time"@,
        proto::route_of(id) == Some(Route::SetNoPhysicalTrigger) <==> id
            == "axiom:set_no_physical_trigger"@,
        proto::route_of(id) == Some(Route::RequestChunkData) <==> id == "axiom:request_chunk_data"@,
        proto::route_of(id) == Some(Route::DeleteEntity) <==> id == "axiom:delete_entity"@,
        proto::route_of(id) == Some(Route::RequestEntityData) <==> id
            == "axiom:request_entity_data"@,
        proto::route_of(id) == Some(Route::ManipulateEntity) <==> id == "axiom:manipulate_entity"@,
        proto::route_of(id) == Some(Route::TickBlocks) <==> id == "axiom:tick_blocks"@,
        proto::route_of(id) == Some(Route::AnnotationUpdate) <==> id == "axiom:annotation_update"@,
{
    lemma_names_differ();
}

/// The names of packets are all different.
proof fn lemma_names_differ()
    ensures
        "axiom:hello"@.len() == 11,
        "axiom:set_block"@.len() == 15,
        "axiom:set_buffer"@.len() == 16,
        "axiom:set_gamemode"@.len() == 18,
        "axiom:set_fly_speed"@.len() == 19,
        "axiom:teleport"@.len() == 14,
        "axiom:set_world_time"@.len() == 20,
        "axiom:set_no_physical_trigger"@.len() == 29,
        "axiom:request_chunk_data"@.len() == 24,
        "axiom:delete_entity"@.len() == 19,
        "axiom:request_entity_data"@.len() == 25,
        "axiom:manipulate_entity"@.len() == 23,
        "axiom:tick_blocks"@.len() == 17,
        "axiom:annotation_update"@.len() == 23,
        "axiom:set_fly_speed"@ != "axiom:delete_entity"@,
        "axiom:manipulate_entity"@ != "axiom:annotation_update"@,
{
    reveal_strlit("axiom:hello");
    reveal_strlit("axiom:set_block");
    reveal_strlit("axiom:set_buffer");
    reveal_strlit("axiom:set_gamemode");
    reveal_strlit("axiom:set_fly_speed");
    reveal_strlit("axiom:teleport");
    reveal_strlit("axiom:set_world_time");
    reveal_strlit("axiom:set_no_physical_trigger");
    reveal_strlit("axiom:request_chunk_data");
    reveal_strlit("axiom:delete_entity");
    reveal_strlit("axiom:request_entity_data");
    reveal_strlit("axiom:manipulate_entity");
    reveal_strlit("axiom:tick_blocks");
    reveal_strlit("axiom:annotation_update");
    assert("axiom:set_fly_speed"@[6] == 's' && "axiom:delete_entity"@[6] == 'd');
    assert("axiom:manipulate_entity"@[6] == 'm' && "axiom:annotation_update"@[6] == 'a');
}

/// The client is told of every packet that has a handler, and of the tunnel.
pub proof fn law_handled_packets_are_listed(id: Seq<char>)
    requires
        proto::route_of(id) is Some || id == "axiom:tunnel"@,
    ensures
        exists|i: int| 0 <= i < proto::supported().len() && (#[trigger] proto::supported()[i])@ == id,
{
    let all = proto::supported();
    assert(all[0]@ == "axiom:tunnel"@);
    assert(all[1]@ == "axiom:hello"@);
    assert(all[2]@ == "axiom:set_block"@);
    assert(all[3]@ == "axiom:set_buffer"@);
    assert(all[4]@ == "axiom:set_gamemode"@);
    assert(all[5]@ == "axiom:set_fly_speed"@);
    assert(all[6]@ == "axiom:teleport"@);
    assert(all[7]@ == "axiom:set_world_time"@);
    assert(all[8]@ == "axiom:set_no_physical_trigger"@);
    assert(all[9]@ == "axiom:request_chunk_data"@);
    assert(all[10]@ == "axiom:delete_entity"@);
    assert(all[11]@ == "axiom:request_entity_data"@);
    assert(all[12]@ == "axiom:manipulate_entity"@);
    assert(all[13]@ == "axiom:tick_blocks"@);
    assert(all[14]@ == "axiom:annotation_update"@);
}

/// A message concerns nobody but its sender, and changes nothing about them but their tunnel. One
/// outside the tunnel changes nothing at all.
pub proof fn law_messages_concern_their_sender(
    players: Map<PlayerKey, StateView>,
    key: PlayerKey,
    other: PlayerKey,
    channel: Seq<char>,
    data: Seq<u8>,
)
    ensures
        ({
            let next = proto::received(players, key, channel, data);
            &&& channel != "axiom:tunnel"@ ==> next == players
            &&& other != key ==> next.contains_key(other) == players.contains_key(other) && (
            players.contains_key(other) ==> next[other] == players[other])
            &&& channel == "axiom:tunnel"@ && players.contains_key(key) ==> {
                let before = players[key];
                &&& next.contains_key(key)
                &&& next[key] == (StateView { tunnel: next[key].tunnel, ..before })
                &&& before.active ==> next[key].tunnel == tunnel::stepped(before.tunnel, data).0
                &&& !before.active ==> next[key].tunnel == before.tunnel
            }
        }),
{
    if channel == "axiom:tunnel"@ && players.contains_key(key) {
        let next = proto::received(players, key, channel, data);
        assert(next[key] =~= StateView { tunnel: next[key].tunnel, ..players[key] });
    }
}

/// A packet outside the tunnel is passed on as it came: from an active client always, and from
/// any other only a hello. What comes through the tunnel of a client that is not active is
/// ignored.
pub proof fn law_only_active_clients_are_heard(
    players: Map<PlayerKey, StateView>,
    key: PlayerKey,
    channel: Seq<char>,
    data: Seq<u8>,
    r: proto::Incoming,
)
    requires
        proto::comes_to(players, key, channel, data, r),
    ensures
        ({
            let active = players.contains_key(key) && players[key].active;
            &&& channel != "axiom:tunnel"@ && (active || channel == "axiom:hello"@) ==> (
            r matches proto::Incoming::Packet(packet) && packet.id@ == channel && packet.body@
                == data)
            &&& !active && channel != "axiom:hello"@ ==> r is Ignored
        }),
{
    reveal_strlit("axiom:tunnel");
    reveal_strlit("axiom:hello");
    assert("axiom:tunnel"@.len() != "axiom:hello"@.len());
}

/// Every tick grants an active client 1024 twentieths of a section, up to 20480 of them; the
/// first fills the budget.
pub proof fn law_budget_is_topped_up(left: i32)
    requires
        left <= 20480,
    ensures
        proto::topped_up(None) == 20480,
        proto::topped_up(Some(left)) == if left + 1024 <= 20480 {
            left + 1024
        } else {
            20480
        },
{
}

/// The client is told by how many whole sections its budget has grown, that is by how many
/// twentieths, less what is short of a section before and after, and of how many it gets a second.
/// It is told nothing where that is none.
pub proof fn law_growth_is_told(left: i32, add: int)
    requires
        0 <= left <= 20480,
        add == proto::topped_up(Some(left)) / 20 - left / 20,
    ensures
        proto::top_up_messages(Some(left)) == if add == 0 {
            Seq::<MessageView>::empty()
        } else {
            seq![
                MessageView {
                    channel: "axiom:update_available_dispatch_sends"@,
                    data: wire::var_i32_bytes(add as i32) + wire::var_i32_bytes(1024),
                },
            ]
        },
        proto::top_up_messages(None) == seq![
            MessageView {
                channel: "axiom:update_available_dispatch_sends"@,
                data: wire::var_i32_bytes(1024) + wire::var_i32_bytes(1024),
            },
        ],
{
}

/// A budget in debt counts its whole sections toward zero.
pub proof fn law_debt_is_rounded_toward_zero(left: int)
    ensures
        left >= 0 ==> 20 * proto::whole_sections(left) <= left < 20 * proto::whole_sections(left)
            + 20,
        proto::whole_sections(-left) == -proto::whole_sections(left),
{
}

/// A buffer costs twenty twentieths for each of its sections. What is left is that, or what the
/// client believes it has if that is less, and never leaves 32 bits.
pub proof fn law_buffer_is_charged(left: i32, sections: i32, client_available: i32)
    requires
        0 <= sections <= 0x400_0000,
        -0x400_0000 <= client_available <= 0x400_0000,
        -0x100_0000 <= left <= 20480,
    ensures
        ({
            let after = proto::charged(Some(left), sections, client_available);
            let spent = left - 20 * sections;
            let believed = 20 * client_available;
            &&& after == if spent <= believed {
                spent
            } else {
                believed
            }
        }),
        proto::charged(None, sections, client_available) == proto::charged(
            Some(20480),
            sections,
            client_available,
        ),
{
}

/// Charging more sections, or believing to have less, never leaves more.
pub proof fn law_charge_is_monotone(
    left: Option<i32>,
    sections: i32,
    more: i32,
    client_available: i32,
    less: i32,
)
    requires
        sections <= more,
        less <= client_available,
    ensures
        proto::charged(left, more, less) <= proto::charged(left, sections, client_available),
        proto::charged(left, sections, client_available) <= proto::saturated(20 * client_available),
{
}

/// Between seconds only active clients hear of anything: their budget grows.
pub proof fn law_quick_tick_tops_up(state: StateView)
    ensures
        ({
            let (next, messages) = proto::quick_tick(state);
            &&& !state.active ==> next == state && messages.len() == 0
            &&& state.active ==> {
                &&& next.dispatch_sends_20 == Some(proto::topped_up(state.dispatch_sends_20))
                &&& next == (StateView { dispatch_sends_20: next.dispatch_sends_20, ..state })
                &&& messages == proto::top_up_messages(state.dispatch_sends_20)
            }
        }),
{
}

/// Once a second a player who may use Axiom and has no handshake pending is offered one, with
/// their token. It is pending from then on.
pub proof fn law_handshake_is_offered(state: StateView, player: OnlineView)
    requires
        !state.active,
        player.can_use,
        state.pending_handshake is None,
    ensures
        ({
            let (next, messages) = proto::slow_tick(state, player);
            &&& messages == seq![
                MessageView { channel: "axiom:hello"@, data: wire::i64_bytes(player.token) },
            ]
            &&& next == (StateView {
                pending_handshake: Some(player.token),
                told_disabled: false,
                ..state
            })
        }),
{
}

/// A player who may not use Axiom is told why, and whatever was offered to them is taken back. A
/// client that was active is shut down, and everything that was known of it is forgotten.
pub proof fn law_who_may_not_is_told(state: StateView, player: OnlineView)
    requires
        !player.can_use,
    ensures
        ({
            let (next, messages) = proto::slow_tick(state, player);
            &&& !next.active
            &&& !state.active && !state.told_disabled ==> {
                &&& next.told_disabled
                &&& next.pending_handshake is None
                &&& messages == seq![
                    MessageView {
                        channel: "axiom:goodbye"@,
                        data: wire::string_bytes(
                            "You don't have permission to use Axiom. Give yourself /op or the axiom.default permission"@,
                        ),
                    },
                ]
            }
            &&& state.active ==> {
                &&& messages == seq![MessageView { channel: "axiom:enable"@, data: seq![0u8] }]
                &&& next.pending_handshake is None
                &&& !next.told_disabled
                &&& next.restrictions is None
                &&& next.dispatch_sends_20 is None
                &&& !next.no_physical_trigger
                &&& next.tunnel.pending.len() == 0 && !next.tunnel.open && !next.tunnel.skipping
            }
        }),
{
}

/// Once a second an active client whose player may use Axiom is told of its restrictions if they
/// have changed, and only then, behind what it is told of its budget.
pub proof fn law_restrictions_are_kept_up(state: StateView, player: OnlineView, r: RestrictionsView)
    requires
        state.active,
        player.can_use,
        player.restrictions == Some(r),
    ensures
        ({
            let (next, messages) = proto::slow_tick(state, player);
            let budget = proto::top_up_messages(state.dispatch_sends_20);
            &&& next == (StateView {
                restrictions: Some(r),
                dispatch_sends_20: Some(proto::topped_up(state.dispatch_sends_20)),
                ..state
            })
            &&& state.restrictions == Some(r) ==> messages == budget
            &&& state.restrictions != Some(r) ==> messages == budget.push(
                MessageView {
                    channel: "axiom:restrictions"@,
                    data: permissions::restrictions_bytes(r),
                },
            )
        }),
{
    let (next, messages) = proto::slow_tick(state, player);
    let budget = proto::top_up_messages(state.dispatch_sends_20);
    assert(next =~= StateView {
        restrictions: Some(r),
        dispatch_sends_20: Some(proto::topped_up(state.dispatch_sends_20)),
        ..state
    });
    if state.restrictions == Some(r) {
        assert(messages =~= budget);
    } else {
        assert(messages =~= budget.push(
            MessageView {
                channel: "axiom:restrictions"@,
                data: permissions::restrictions_bytes(r),
            },
        ));
    }
}

/// What is sent to the player at place `i`, in its order.
pub open spec fn sent_to(sent: Seq<(int, MessageView)>, i: int) -> Seq<(int, MessageView)> {
    sent.filter(|m: (int, MessageView)| m.0 == i)
}

/// What a tick makes of a player who was known to be in `state`, if they were, and what they are
/// sent.
pub open spec fn alone(known: Option<StateView>, player: OnlineView, slow: bool) -> (
    Option<StateView>,
    Seq<MessageView>,
) {
    match known {
        Some(state) => if slow {
            let (next, messages) = proto::slow_tick(state, player);
            (Some(next), messages)
        } else {
            let (next, messages) = proto::quick_tick(state);
            (Some(next), messages)
        },
        None => if slow {
            let (next, messages) = proto::slow_tick(
                StateView {
                    tunnel: tunnel::TunnelView {
                        pending: Seq::empty(),
                        open: false,
                        skipping: false,
                    },
                    active: false,
                    pending_handshake: None,
                    told_disabled: false,
                    restrictions: None,
                    dispatch_sends_20: None,
                    no_physical_trigger: false,
                },
                player,
            );
            (Some(next), messages)
        } else {
            (None, Seq::empty())
        },
    }
}

/// What is known of a player, if anything is.
pub open spec fn known(players: Map<PlayerKey, StateView>, key: PlayerKey) -> Option<StateView> {
    if players.contains_key(key) {
        Some(players[key])
    } else {
        None
    }
}

proof fn lemma_filter_parts(a: Seq<(int, MessageView)>, b: Seq<(int, MessageView)>, i: int)
    ensures
        sent_to(a + b, i) == sent_to(a, i) + sent_to(b, i),
{
    Seq::filter_distributes_over_add(a, b, |m: (int, MessageView)| m.0 == i);
}

proof fn lemma_filter_addressed(k: int, messages: Seq<MessageView>, i: int)
    ensures
        sent_to(proto::addressed(k, messages), i) == if k == i {
            proto::addressed(i, messages)
        } else {
            Seq::empty()
        },
    decreases messages.len(),
{
    reveal(Seq::filter);
    let all = proto::addressed(k, messages);
    if messages.len() > 0 {
        lemma_filter_addressed(k, messages.drop_last(), i);
        assert(all.drop_last() =~= proto::addressed(k, messages.drop_last()));
        if k == i {
            assert(proto::addressed(i, messages.drop_last()).push(all.last())
                =~= proto::addressed(i, messages));
        }
    } else {
        assert(all =~= Seq::empty());
        assert(sent_to(all, i) =~= Seq::empty());
        assert(proto::addressed(i, messages) =~= Seq::empty());
    }
}

/// One player's tick concerns nobody else.
proof fn lemma_ticked_one(
    players: Map<PlayerKey, StateView>,
    player: OnlineView,
    slow: bool,
    other: PlayerKey,
)
    ensures
        ({
            let (next, messages) = proto::ticked_one(players, player, slow);
            let (state, told) = alone(known(players, player.key), player, slow);
            &&& known(next, player.key) == state
            &&& messages == told
            &&& other != player.key ==> known(next, other) == known(players, other)
        }),
{
}

proof fn lemma_ticked_states(
    players: Map<PlayerKey, StateView>,
    online: Seq<OnlineView>,
    slow: bool,
    from: int,
    key: PlayerKey,
)
    requires
        0 <= from <= online.len(),
        forall|a: int, b: int| 0 <= a < b < online.len() ==> online[a].key != online[b].key,
    ensures
        ({
            let end = proto::ticked_from(players, online, slow, from).0;
            &&& forall|i: int|
                from <= i < online.len() && (#[trigger] online[i]).key == key ==> known(end, key)
                    == alone(known(players, key), online[i], slow).0
            &&& (forall|i: int| from <= i < online.len() ==> (#[trigger] online[i]).key != key)
                ==> known(end, key) == known(players, key)
        }),
    decreases online.len() - from,
{
    if from < online.len() {
        let next = proto::ticked_one(players, online[from], slow).0;
        lemma_ticked_one(players, online[from], slow, key);
        lemma_ticked_states(next, online, slow, from + 1, key);
        if online[from].key == key {
            assert forall|i: int| from + 1 <= i < online.len() implies (#[trigger] online[i]).key
                != key by {
                assert(online[from].key != online[i].key);
            }
        }
    }
}

proof fn lemma_ticked_messages(
    players: Map<PlayerKey, StateView>,
    online: Seq<OnlineView>,
    slow: bool,
    from: int,
    i: int,
)
    requires
        0 <= from <= online.len(),
        i < online.len(),
        forall|a: int, b: int| 0 <= a < b < online.len() ==> online[a].key != online[b].key,
    ensures
        sent_to(proto::ticked_from(players, online, slow, from).1, i) == if i < from {
            Seq::empty()
        } else {
            proto::addressed(i, alone(known(players, online[i].key), online[i], slow).1)
        },
    decreases online.len() - from,
{
    let sent = proto::ticked_from(players, online, slow, from).1;
    if from < online.len() {
        let (next, messages) = proto::ticked_one(players, online[from], slow);
        let rest = proto::ticked_from(next, online, slow, from + 1).1;
        lemma_ticked_one(players, online[from], slow, online[i].key);
        lemma_ticked_messages(next, online, slow, from + 1, i);
        lemma_filter_parts(proto::addressed(from, messages), rest, i);
        lemma_filter_addressed(from, messages, i);
        if from < i {
            assert(online[from].key != online[i].key);
        }
        assert(Seq::empty() + sent_to(rest, i) =~= sent_to(rest, i));
        assert(proto::addressed(i, messages) + Seq::empty() =~= proto::addressed(i, messages));
    } else {
        reveal(Seq::filter);
        assert(sent_to(sent, i) =~= Seq::empty());
    }
}

/// A tick treats every player who is online for themselves, whoever else is: what becomes of them
/// and what they are sent depends on what was known of them alone. Between seconds nothing changes
/// about anybody else.
pub proof fn law_tick_treats_everybody_alone(
    players: Map<PlayerKey, StateView>,
    online: Seq<OnlineView>,
    slow: bool,
    i: int,
    other: PlayerKey,
)
    requires
        0 <= i < online.len(),
        forall|a: int, b: int| 0 <= a < b < online.len() ==> online[a].key != online[b].key,
    ensures
        ({
            let (end, sent) = proto::ticked(players, online, slow);
            let (next, messages) = alone(known(players, online[i].key), online[i], slow);
            &&& known(end, online[i].key) == next
            &&& sent_to(sent, i) == proto::addressed(i, messages)
            &&& !slow && (forall|a: int|
                0 <= a < online.len() ==> (#[trigger] online[a]).key != other) ==> known(end, other)
                == known(players, other)
        }),
{
    lemma_ticked_states(players, online, slow, 0, online[i].key);
    lemma_ticked_states(players, online, slow, 0, other);
    lemma_ticked_messages(players, online, slow, 0, i);
    let key = online[i].key;
    assert(proto::keys_of(online).contains(key));
}

/// A client of an older revision is told to update, and one of a newer that the server has not;
/// both are told the two revisions.
pub proof fn law_other_revisions_are_told_apart(api_version: i32)
    ensures
        proto::version_text(api_version) == (if api_version < 10 {
            "Unable to use Axiom, you're on an outdated version! Please update to the latest version of Axiom to use it on this server."@
        } else {
            "Unable to use Axiom, server hasn't updated Axiom yet."@
        }) + " (C="@ + text::signed_decimal(api_version as int) + " S="@ + text::signed_decimal(10)
            + ")"@,
{
}

/// Whoever sends what cannot be processed is kicked with the packet's name and the reason.
pub proof fn law_failure_names_the_packet(id: Seq<char>, reason: Seq<char>)
    ensures
        proto::failure_text(id, reason) == "Axiom: error while processing "@ + id + ": "@ + reason,
{
}

/// Who has a handshake pending and may use Axiom, and who was told that they may not, hears
/// nothing more. Where it is not known what an active client is restricted to, only its budget
/// grows.
pub proof fn law_nothing_is_said_twice(state: StateView, player: OnlineView)
    ensures
        !state.active && player.can_use && state.pending_handshake is Some ==> proto::slow_tick(
            state,
            player,
        ) == (state, Seq::<MessageView>::empty()),
        !state.active && !player.can_use && state.told_disabled ==> proto::slow_tick(state, player)
            == (state, Seq::<MessageView>::empty()),
        state.active && player.can_use && player.restrictions is None ==> proto::slow_tick(
            state,
            player,
        ) == proto::quick_tick(state),
{
}

/// A client may overdraw its budget by 20480 twentieths, and no more.
pub proof fn law_overdraft_is_limited(left: int)
    ensures
        proto::within_limit(left) <==> left + 20480 >= 0,
{
}

/// A hello concerns nobody but who said it, and nothing is kept of a client of another revision.
pub proof fn law_hello_concerns_who_said_it(
    players: Map<PlayerKey, StateView>,
    key: PlayerKey,
    other: PlayerKey,
    hello: Hello,
    next: StateView,
)
    ensures
        ({
            let end = proto::greeted_in(players, key, hello, next);
            &&& hello.api_version != 10 ==> end == players
            &&& hello.api_version == 10 ==> known(end, key) == Some(next)
            &&& other != key ==> known(end, other) == known(players, other)
        }),
{
}

/// Who is not known yet starts with nothing: not active, with no handshake, no budget and no
/// restrictions, and with an empty tunnel.
pub proof fn law_unknown_players_start_afresh(players: Map<PlayerKey, StateView>, key: PlayerKey)
    requires
        !players.contains_key(key),
    ensures
        ({
            let state = proto::state_in(players, key);
            &&& !state.active && !state.told_disabled && !state.no_physical_trigger
            &&& state.pending_handshake is None
            &&& state.restrictions is None
            &&& state.dispatch_sends_20 is None
            &&& state.tunnel.pending.len() == 0 && !state.tunnel.open && !state.tunnel.skipping
        }),
{
}

} // verus!
