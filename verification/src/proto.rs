//! Handshake state machine, buffer budget and packet dispatch.
//!
//! The handshake is driven by the server: once a second we offer `axiom:hello` with a
//! random token to every player allowed to use Axiom, and the client echoes the
//! token back along with its API version. A matching echo enables the client.

use vstd::prelude::*;
use vstd::slice::slice_to_vec;
use vstd::string::*;

use crate::buf;
use crate::buf::{Reader, Writer};
use crate::permissions;
use crate::permissions::{Restrictions, RestrictionsView};
use crate::text;
use crate::tunnel;
use crate::tunnel::{Tunnel, TunnelView};
use crate::wire;

verus! {

/// Axiom's protocol revision. The client refuses to talk to a server that reports
/// a different one.
pub const API_VERSION: i32 = 10;

/// Chunk sections a player may push per second, mirroring the default
/// `block-buffer-rate-limit`. The client spends from this budget for every block
/// buffer it sends and stops sending once it runs out, so the server has to keep
/// topping it up — without that, only the first buffer of an edit ever arrives.
pub const DISPATCH_SENDS_PER_SECOND: i32 = 1024;

/// The fullest a budget gets, in twentieths of a section.
pub const FULL_BUDGET_20: i32 = 20480;

/// A player, by the two halves of their UUID.
pub type PlayerKey = (u64, u64);

/// The key of a player with the given UUID.
pub fn key_of(high: u64, low: u64) -> (r: PlayerKey)
    ensures
        r == (high, low),
{
    (high, low)
}

/// Serverbound packets this server understands. Sent verbatim in `axiom:enable`; the
/// client disables any feature whose packet is missing from the list, so a name stands
/// here only if it has a handler.
pub open spec fn supported() -> Seq<&'static str> {
    seq![
        "axiom:tunnel",
        "axiom:hello",
        "axiom:set_block",
        "axiom:set_buffer",
        "axiom:set_gamemode",
        "axiom:set_fly_speed",
        "axiom:teleport",
        "axiom:set_world_time",
        "axiom:set_no_physical_trigger",
        "axiom:request_chunk_data",
        "axiom:delete_entity",
        "axiom:request_entity_data",
        "axiom:manipulate_entity",
        "axiom:tick_blocks",
        "axiom:annotation_update",
    ]
}

/// Serverbound packets this server understands.
pub fn supported_packets() -> (r: Vec<&'static str>)
    ensures
        r@ == supported(),
{
    let r: Vec<&'static str> = vec![
        "axiom:tunnel",
        "axiom:hello",
        "axiom:set_block",
        "axiom:set_buffer",
        "axiom:set_gamemode",
        "axiom:set_fly_speed",
        "axiom:teleport",
        "axiom:set_world_time",
        "axiom:set_no_physical_trigger",
        "axiom:request_chunk_data",
        "axiom:delete_entity",
        "axiom:request_entity_data",
        "axiom:manipulate_entity",
        "axiom:tick_blocks",
        "axiom:annotation_update",
    ];
    assert(r@ =~= supported());
    r
}

/// A plugin message to a client.
pub struct Message {
    pub channel: &'static str,
    pub data: Vec<u8>,
}

/// A plugin message, taken by its contents.
#[verifier::ext_equal]
pub struct MessageView {
    pub channel: Seq<char>,
    pub data: Seq<u8>,
}

impl View for Message {
    type V = MessageView;

    open spec fn view(&self) -> MessageView {
        MessageView { channel: self.channel@, data: self.data@ }
    }
}

/// Messages, taken by their contents.
pub open spec fn message_views(messages: Seq<Message>) -> Seq<MessageView> {
    Seq::new(messages.len(), |i: int| messages[i]@)
}

/// What is kept of each player.
pub struct PlayerState {
    pub tunnel: Tunnel,
    /// Set once the client has completed the handshake.
    pub active: bool,
    /// Token we offered in `axiom:hello` and are waiting to see echoed back.
    pub pending_handshake: Option<i64>,
    /// Whether we already told this player why Axiom is unavailable, so the
    /// message is not repeated every second.
    pub told_disabled: bool,
    pub restrictions: Option<Restrictions>,
    /// Remaining block-buffer budget, in twentieths of a section. `None` until the first
    /// top-up is sent.
    pub dispatch_sends_20: Option<i32>,
    /// Whether the player asked not to trigger pressure plates and the like.
    pub no_physical_trigger: bool,
}

/// What is kept of a player, taken by its contents.
#[verifier::ext_equal]
pub struct StateView {
    pub tunnel: TunnelView,
    pub active: bool,
    pub pending_handshake: Option<i64>,
    pub told_disabled: bool,
    pub restrictions: Option<RestrictionsView>,
    pub dispatch_sends_20: Option<i32>,
    pub no_physical_trigger: bool,
}

impl View for PlayerState {
    type V = StateView;

    open spec fn view(&self) -> StateView {
        StateView {
            tunnel: self.tunnel@,
            active: self.active,
            pending_handshake: self.pending_handshake,
            told_disabled: self.told_disabled,
            restrictions: match self.restrictions {
                Some(restrictions) => Some(restrictions@),
                None => None,
            },
            dispatch_sends_20: self.dispatch_sends_20,
            no_physical_trigger: self.no_physical_trigger,
        }
    }
}

impl StateView {
    /// The reassembly buffer and the budget are within their limits.
    pub open spec fn wf(self) -> bool {
        &&& self.tunnel.bounded()
        &&& self.dispatch_sends_20 matches Some(left) ==> left <= FULL_BUDGET_20
    }
}

/// A player nothing is known of yet.
pub open spec fn fresh() -> StateView {
    StateView {
        tunnel: tunnel::idle(),
        active: false,
        pending_handshake: None,
        told_disabled: false,
        restrictions: None,
        dispatch_sends_20: None,
        no_physical_trigger: false,
    }
}

impl Default for PlayerState {
    fn default() -> (r: Self)
        ensures
            r@ == fresh(),
    {
        PlayerState {
            tunnel: Tunnel::new(),
            active: false,
            pending_handshake: None,
            told_disabled: false,
            restrictions: None,
            dispatch_sends_20: None,
            no_physical_trigger: false,
        }
    }
}

/// How many whole sections a budget in twentieths is, rounded toward zero.
pub open spec fn whole_sections(left: int) -> int {
    if left >= 0 {
        left / 20
    } else {
        -((-left) / 20)
    }
}

fn sections_in(left: i32) -> (r: i32)
    requires
        left > i32::MIN,
    ensures
        r == whole_sections(left as int),
{
    if left >= 0 {
        left / 20
    } else {
        -((-left) / 20)
    }
}

/// The update that tells the client its budget has grown by `add` sections.
pub open spec fn budget_message(add: i32) -> MessageView {
    MessageView {
        channel: "axiom:update_available_dispatch_sends"@,
        data: wire::var_i32_bytes(add) + wire::var_i32_bytes(DISPATCH_SENDS_PER_SECOND),
    }
}

/// The budget after another tick's worth.
pub open spec fn topped_up(left: Option<i32>) -> i32 {
    match left {
        None => FULL_BUDGET_20,
        Some(previous) => if previous + DISPATCH_SENDS_PER_SECOND < FULL_BUDGET_20 {
            (previous + DISPATCH_SENDS_PER_SECOND) as i32
        } else {
            FULL_BUDGET_20
        },
    }
}

/// What the client is told of another tick's worth: by how many whole sections its budget has
/// grown, and nothing where it has not.
pub open spec fn top_up_messages(left: Option<i32>) -> Seq<MessageView> {
    match left {
        None => seq![budget_message(DISPATCH_SENDS_PER_SECOND)],
        Some(previous) => {
            let add = whole_sections(topped_up(left) as int) - whole_sections(previous as int);
            if add != 0 {
                seq![budget_message(add as i32)]
            } else {
                Seq::empty()
            }
        },
    }
}

fn dispatch_update(add: i32, max: i32) -> (r: Message)
    requires
        max == DISPATCH_SENDS_PER_SECOND,
    ensures
        r@ == budget_message(add),
{
    let mut w = Writer::new();
    w.var_i32(add);
    w.var_i32(max);
    let data = w.into_vec();
    assert(data@ =~= budget_message(add).data);
    Message { channel: "axiom:update_available_dispatch_sends", data }
}

/// Grants the player another tick's worth of buffer budget and tells the client
/// whenever the whole-section total has moved.
pub fn top_up_dispatch_sends(state: &mut PlayerState) -> (r: Vec<Message>)
    requires
        old(state)@.wf(),
    ensures
        final(state)@.wf(),
        final(state)@ == (StateView {
            dispatch_sends_20: Some(topped_up(old(state)@.dispatch_sends_20)),
            ..old(state)@
        }),
        message_views(r@) == top_up_messages(old(state)@.dispatch_sends_20),
{
    let allowed: i32 = DISPATCH_SENDS_PER_SECOND;
    let ghost left = state.dispatch_sends_20;
    let mut messages: Vec<Message> = Vec::new();
    match state.dispatch_sends_20 {
        None => {
            state.dispatch_sends_20 = Some(FULL_BUDGET_20);
            messages.push(dispatch_update(allowed, allowed));
        },
        Some(previous) => {
            let updated: i32 = if previous + allowed < FULL_BUDGET_20 {
                previous + allowed
            } else {
                FULL_BUDGET_20
            };
            state.dispatch_sends_20 = Some(updated);
            let add: i32 = gained(previous, updated);
            if add != 0 {
                messages.push(dispatch_update(add, allowed));
            }
        },
    }
    assert(message_views(messages@) =~= top_up_messages(left));
    messages
}

/// By how many whole sections a budget has grown.
fn gained(previous: i32, updated: i32) -> (r: i32)
    requires
        previous <= updated <= previous + DISPATCH_SENDS_PER_SECOND,
    ensures
        r == whole_sections(updated as int) - whole_sections(previous as int),
{
    // The lowest budget of all has no negation; one more has the same whole sections.
    let from: i32 = if previous == i32::MIN { previous + 1 } else { previous };
    let to: i32 = if updated == i32::MIN { updated + 1 } else { updated };
    sections_in(to) - sections_in(from)
}

/// What is left of a budget once `sections` were charged and it was brought down to what the
/// client believes it has. A budget that was never topped up counts as full.
pub open spec fn charged(left: Option<i32>, sections: i32, client_available: i32) -> i32 {
    let before = match left {
        Some(left) => left,
        None => FULL_BUDGET_20,
    };
    let spent = saturated(before - saturated(sections * 20));
    let believed = saturated(client_available * 20);
    if spent < believed {
        spent as i32
    } else {
        believed as i32
    }
}

/// Whether a budget is overdrawn by no more than a full one.
pub open spec fn within_limit(left: int) -> bool {
    left >= -FULL_BUDGET_20
}

/// The nearest number that fits in 32 bits.
pub open spec fn saturated(n: int) -> int {
    if n < i32::MIN {
        i32::MIN as int
    } else if n > i32::MAX {
        i32::MAX as int
    } else {
        n
    }
}

fn saturate(n: i64) -> (r: i32)
    ensures
        r == saturated(n as int),
{
    if n < i32::MIN as i64 {
        i32::MIN
    } else if n > i32::MAX as i64 {
        i32::MAX
    } else {
        n as i32
    }
}

/// Charges a block buffer against the player's budget and re-syncs with what the
/// client believes it has left. Returns false when the player is over the limit.
pub fn consume_dispatch_sends(
    state: &mut PlayerState,
    sections: i32,
    client_available: i32,
) -> (r: bool)
    ensures
        old(state)@.wf() && 0 <= sections ==> final(state)@.wf(),
        final(state)@ == (StateView {
            dispatch_sends_20: Some(
                charged(old(state)@.dispatch_sends_20, sections, client_available),
            ),
            ..old(state)@
        }),
        r == within_limit(
            charged(old(state)@.dispatch_sends_20, sections, client_available) as int,
        ),
{
    let before: i32 = match state.dispatch_sends_20 {
        Some(left) => left,
        None => FULL_BUDGET_20,
    };
    let cost: i32 = saturate(sections as i64 * 20);
    let spent: i32 = saturate(before as i64 - cost as i64);
    let believed: i32 = saturate(client_available as i64 * 20);
    let left: i32 = if spent < believed { spent } else { believed };
    state.dispatch_sends_20 = Some(left);
    left >= -FULL_BUDGET_20
}

/// A random number from `getrandom::fill`, or `None` where the system has none to give.
/// Nothing is promised of the number.
#[verifier::external_body]
fn random_number() -> (r: Option<i64>) {
    let mut bytes = [0u8; 8];
    match getrandom::fill(&mut bytes) {
        Ok(()) => Some(i64::from_ne_bytes(bytes)),
        Err(_) => None,
    }
}

/// The token made of a random number. Zero is reserved as "no handshake pending"; without
/// randomness a fixed token still keeps the handshake functional (it only guards against a
/// client claiming to be enabled without being offered it).
pub fn token_of(random: Option<i64>) -> (r: i64)
    ensures
        r == match random {
            Some(n) => if n == 0 {
                1i64
            } else {
                n
            },
            None => 1i64,
        },
{
    match random {
        Some(n) => if n == 0 {
            1
        } else {
            n
        },
        None => 1,
    }
}

/// A non-zero token.
pub fn new_handshake_token() -> (r: i64)
    ensures
        r != 0,
{
    token_of(random_number())
}

/// A goodbye with its reason.
pub open spec fn goodbye(reason: Seq<char>) -> MessageView {
    MessageView { channel: "axiom:goodbye"@, data: wire::string_bytes(reason) }
}

/// Tells a client why it cannot use Axiom.
pub fn send_goodbye(reason: &str) -> (r: Message)
    ensures
        r@ == goodbye(reason@),
{
    let mut w = Writer::new();
    w.string(reason);
    let data = w.into_vec();
    assert(data@ =~= wire::string_bytes(reason@));
    Message { channel: "axiom:goodbye", data }
}

/// What a player is told who may not use Axiom.
pub open spec fn no_permission_text() -> Seq<char> {
    "You don't have permission to use Axiom. Give yourself /op or the axiom.default permission"@
}

/// What the client is told of its restrictions: nothing where it has them already.
pub open spec fn restrictions_messages(
    known: Option<RestrictionsView>,
    restrictions: RestrictionsView,
) -> Seq<MessageView> {
    if known == Some(restrictions) {
        Seq::empty()
    } else {
        seq![
            MessageView {
                channel: "axiom:restrictions"@,
                data: permissions::restrictions_bytes(restrictions),
            },
        ]
    }
}

/// Sends the restrictions unless the client has them already.
fn update_restrictions(
    state: &mut PlayerState,
    restrictions: Restrictions,
    messages: &mut Vec<Message>,
)
    ensures
        final(state)@ == (StateView { restrictions: Some(restrictions@), ..old(state)@ }),
        message_views(final(messages)@) == message_views(old(messages)@) + restrictions_messages(
            old(state)@.restrictions,
            restrictions@,
        ),
{
    let ghost before = message_views(messages@);
    if let Some(known) = &state.restrictions {
        if known.same(&restrictions) {
            assert(before + Seq::<MessageView>::empty() =~= before);
            return;
        }
    }
    let message = Message { channel: "axiom:restrictions", data: restrictions.encode() };
    let ghost sent = message@;
    messages.push(message);
    assert(message_views(messages@) =~= before + seq![sent]);
    state.restrictions = Some(restrictions);
}

/// A player who is online, as one tick finds them.
pub struct Online {
    pub key: PlayerKey,
    /// Whether the player may use Axiom.
    pub can_use: bool,
    /// What the player is allowed to do, looked up where the client is active.
    pub restrictions: Option<Restrictions>,
    /// The token to offer, should one be needed.
    pub token: i64,
}

/// A player who is online, taken by their contents.
#[verifier::ext_equal]
pub struct OnlineView {
    pub key: PlayerKey,
    pub can_use: bool,
    pub restrictions: Option<RestrictionsView>,
    pub token: i64,
}

impl View for Online {
    type V = OnlineView;

    open spec fn view(&self) -> OnlineView {
        OnlineView {
            key: self.key,
            can_use: self.can_use,
            restrictions: match self.restrictions {
                Some(restrictions) => Some(restrictions@),
                None => None,
            },
            token: self.token,
        }
    }
}

impl Online {
    /// A player who is online, with a token drawn for them.
    pub fn new(key: PlayerKey, can_use: bool, restrictions: Option<Restrictions>) -> (r: Self)
        ensures
            r@.key == key,
            r@.can_use == can_use,
            r@.restrictions == (match restrictions {
                Some(restrictions) => Some(restrictions@),
                None => None,
            }),
            r@.token != 0,
    {
        Online { key, can_use, restrictions, token: new_handshake_token() }
    }
}

/// The offer of a handshake.
pub open spec fn offer(token: i64) -> MessageView {
    MessageView { channel: "axiom:hello"@, data: wire::i64_bytes(token) }
}

/// The message that shuts a client down.
pub open spec fn shutdown() -> MessageView {
    MessageView { channel: "axiom:enable"@, data: seq![0u8] }
}

/// What a tick does to a player between seconds, and what they are sent: the budget of an
/// active client is topped up.
pub open spec fn quick_tick(state: StateView) -> (StateView, Seq<MessageView>) {
    if state.active {
        (
            StateView {
                dispatch_sends_20: Some(topped_up(state.dispatch_sends_20)),
                ..state
            },
            top_up_messages(state.dispatch_sends_20),
        )
    } else {
        (state, Seq::empty())
    }
}

/// What the tick of a second does to a player, and what they are sent.
///
/// An active client has its budget topped up and its restrictions refreshed, or is shut down
/// where the player may no longer use Axiom. Others are offered a handshake unless one is
/// pending, or told once why they get none.
pub open spec fn slow_tick(state: StateView, player: OnlineView) -> (
    StateView,
    Seq<MessageView>,
) {
    if state.active {
        if player.can_use {
            let (next, messages) = quick_tick(state);
            match player.restrictions {
                Some(restrictions) => (
                    StateView { restrictions: Some(restrictions), ..next },
                    messages + restrictions_messages(next.restrictions, restrictions),
                ),
                None => (next, messages),
            }
        } else {
            (fresh(), seq![shutdown()])
        }
    } else if player.can_use {
        if state.pending_handshake is None {
            (
                StateView {
                    pending_handshake: Some(player.token),
                    told_disabled: false,
                    ..state
                },
                seq![offer(player.token)],
            )
        } else {
            (state, Seq::empty())
        }
    } else if !state.told_disabled {
        (
            StateView { told_disabled: true, pending_handshake: None, ..state },
            seq![goodbye(no_permission_text())],
        )
    } else {
        (state, Seq::empty())
    }
}

/// A single zero byte, which reads as "no" or as an empty list.
fn zero_byte() -> (r: Vec<u8>)
    ensures
        r@ == seq![0u8],
{
    let r: Vec<u8> = vec![0u8];
    assert(r@ =~= seq![0u8]);
    r
}

/// The tick of a second, for one player.
fn tick_slowly(state: &mut PlayerState, player: Online) -> (r: Vec<Message>)
    requires
        old(state)@.wf(),
    ensures
        final(state)@.wf(),
        (final(state)@, message_views(r@)) == slow_tick(old(state)@, player@),
{
    let ghost before = state@;
    let mut messages: Vec<Message> = Vec::new();
    if state.active {
        if player.can_use {
            messages = top_up_dispatch_sends(state);
            if let Some(restrictions) = player.restrictions {
                update_restrictions(state, restrictions, &mut messages);
            }
        } else {
            // Tell the client to shut Axiom down, then start over.
            messages.push(Message { channel: "axiom:enable", data: zero_byte() });
            *state = PlayerState::default();
            assert(message_views(messages@) =~= seq![shutdown()]);
        }
    } else if player.can_use {
        if state.pending_handshake.is_none() {
            state.pending_handshake = Some(player.token);
            state.told_disabled = false;
            let mut w = Writer::new();
            w.i64(player.token);
            let data = w.into_vec();
            assert(data@ =~= wire::i64_bytes(player.token));
            messages.push(Message { channel: "axiom:hello", data });
            assert(message_views(messages@) =~= seq![offer(player.token)]);
        }
    } else if !state.told_disabled {
        state.told_disabled = true;
        state.pending_handshake = None;
        messages.push(
            send_goodbye(
                "You don't have permission to use Axiom. Give yourself /op or the axiom.default permission",
            ),
        );
        assert(message_views(messages@) =~= seq![goodbye(no_permission_text())]);
    }
    assert(message_views(Seq::<Message>::empty()) =~= Seq::<MessageView>::empty());
    assert(state@ =~= slow_tick(before, player@).0);
    messages
}

/// What a client says of itself when it echoes the handshake.
pub struct Hello {
    pub api_version: i32,
    pub token: i64,
    /// How many bytes stood behind the last field.
    pub trailing: usize,
}

/// A client's hello: three versions, of which the first counts, then the token. Bytes behind
/// it are let pass.
pub open spec fn hello_in(body: Seq<u8>) -> Result<Hello, buf::Error> {
    match wire::read_var_i32(body, 0) {
        (Err(e), _) => Err(e),
        (Ok(api_version), q) => match wire::read_var_i32(body, q) {
            (Err(e), _) => Err(e),
            (Ok(_), q2) => match wire::read_var_i32(body, q2) {
                (Err(e), _) => Err(e),
                (Ok(_), q3) => match wire::read_i64(body, q3) {
                    (Err(e), _) => Err(e),
                    (Ok(token), q4) => Ok(
                        Hello { api_version, token, trailing: (body.len() - q4) as usize },
                    ),
                },
            },
        },
    }
}

/// Reads a client's hello.
pub fn read_hello(body: &[u8]) -> (res: Result<Hello, buf::Error>)
    ensures
        res == hello_in(body@),
{
    let mut r = Reader::new(body);
    let api_version: i32 = r.var_i32()?;
    let _data_version: i32 = r.var_i32()?;
    // The server rejects mismatched protocol versions at login, so a connected client
    // always matches here.
    let _protocol_version: i32 = r.var_i32()?;
    let token: i64 = r.i64()?;
    let trailing: usize = r.remaining();
    Ok(Hello { api_version, token, trailing })
}

/// What a client of another version is told.
pub open spec fn version_text(api_version: i32) -> Seq<char> {
    (if api_version < API_VERSION {
        "Unable to use Axiom, you're on an outdated version! Please update to the latest version of Axiom to use it on this server."@
    } else {
        "Unable to use Axiom, server hasn't updated Axiom yet."@
    }) + " (C="@ + text::signed_decimal(api_version as int) + " S="@ + text::signed_decimal(
        API_VERSION as int,
    ) + ")"@
}

/// What enables a client: the limits of the tunnel, and the packets we understand.
pub open spec fn enable_bytes() -> Seq<u8> {
    seq![1u8, 0u8] + wire::var_i32_bytes(2) + wire::i32_bytes(tunnel::MAX_FRAME_LEN as i32)
        + wire::i32_bytes(tunnel::MAX_PACKET_LEN as i32) + wire::var_i32_bytes(0)
        + wire::var_i32_bytes(0) + wire::len_bytes(supported().len()) + permissions::names_bytes(
        permissions::texts(supported()),
    )
}

/// What a client is sent when it is enabled.
pub open spec fn enabling_messages(restrictions: RestrictionsView) -> Seq<MessageView> {
    seq![
        MessageView { channel: "axiom:enable"@, data: enable_bytes() },
        MessageView {
            channel: "axiom:restrictions"@,
            data: permissions::restrictions_bytes(restrictions),
        },
        MessageView { channel: "axiom:register_world_properties"@, data: seq![0u8] },
    ]
}

/// What becomes of a client's hello: the state, what the client is sent, and the text it is
/// kicked with, if it is.
pub open spec fn greeted(
    state: StateView,
    hello: Hello,
    can_use: bool,
    restrictions: RestrictionsView,
) -> (StateView, Seq<MessageView>, Option<Seq<char>>) {
    if hello.api_version != API_VERSION {
        let why = version_text(hello.api_version);
        (state, seq![goodbye(why)], Some(why))
    } else if state.pending_handshake != Some(hello.token) {
        (state, seq![goodbye("Invalid handshake ID"@)], None)
    } else if !can_use {
        (
            StateView { pending_handshake: None, ..state },
            seq![goodbye("Missing axiom.use permission"@)],
            None,
        )
    } else {
        (
            StateView {
                active: true,
                pending_handshake: None,
                restrictions: Some(restrictions),
                tunnel: tunnel::idle(),
                ..state
            },
            enabling_messages(restrictions),
            None,
        )
    }
}

fn version_message(api_version: i32) -> (r: String)
    ensures
        r@ == version_text(api_version),
{
    let mut out = String::new();
    if api_version < API_VERSION {
        out.append(
            "Unable to use Axiom, you're on an outdated version! Please update to the latest version of Axiom to use it on this server.",
        );
    } else {
        out.append("Unable to use Axiom, server hasn't updated Axiom yet.");
    }
    out.append(" (C=");
    text::push_signed_decimal(&mut out, api_version as i64);
    out.append(" S=");
    text::push_signed_decimal(&mut out, API_VERSION as i64);
    out.append(")");
    assert(out@ =~= version_text(api_version));
    out
}

fn enable_payload() -> (r: Vec<u8>)
    ensures
        r@ == enable_bytes(),
{
    let mut w = Writer::new();
    w.bool(true);
    w.u8(0);  // ServerConfig version
    w.var_i32(2);  // Blueprint version
    w.i32(tunnel::MAX_FRAME_LEN as i32);
    w.i32(tunnel::MAX_PACKET_LEN as i32);
    w.var_i32(0);  // blockWithCustomData
    w.var_i32(0);  // ignoreRotationSet
    permissions::write_names(&mut w, &supported_packets());
    let r = w.into_vec();
    assert(r@ =~= enable_bytes());
    r
}

/// Enables a client: its limits, its restrictions, and the empty list of world properties it
/// needs to finish opening its editor UI.
fn activate(state: &mut PlayerState, restrictions: Restrictions) -> (r: Vec<Message>)
    ensures
        final(state)@ == (StateView {
            active: true,
            pending_handshake: None,
            restrictions: Some(restrictions@),
            tunnel: tunnel::idle(),
            ..old(state)@
        }),
        message_views(r@) == enabling_messages(restrictions@),
{
    let mut messages: Vec<Message> = Vec::new();
    messages.push(Message { channel: "axiom:enable", data: enable_payload() });
    let ghost first = message_views(messages@);
    assert(first =~= seq![enabling_messages(restrictions@)[0]]);
    state.active = true;
    state.pending_handshake = None;
    state.restrictions = None;
    state.tunnel.reset();
    // The client expects its restrictions immediately after being enabled.
    update_restrictions(state, restrictions, &mut messages);
    let ghost both = message_views(messages@);
    messages.push(Message { channel: "axiom:register_world_properties", data: zero_byte() });
    assert(message_views(messages@) =~= both.push(enabling_messages(restrictions@)[2]));
    assert(message_views(messages@) =~= enabling_messages(restrictions@));
    messages
}

/// What a client's hello is answered with.
pub struct Greeting {
    pub messages: Vec<Message>,
    /// The reason the client is kicked for, if it is.
    pub kick: Option<String>,
}

/// What a client of another version is answered.
fn turn_away(api_version: i32) -> (r: Greeting)
    ensures
        message_views(r.messages@) == seq![goodbye(version_text(api_version))],
        r.kick matches Some(text) && text@ == version_text(api_version),
{
    let message = version_message(api_version);
    let messages: Vec<Message> = vec![send_goodbye(message.as_str())];
    assert(message_views(messages@) =~= seq![goodbye(version_text(api_version))]);
    Greeting { messages, kick: Some(message) }
}

/// `axiom:hello` — enables a client that echoes the token it was offered, if its version
/// matches and its player may use Axiom.
pub fn handle_hello(
    state: &mut PlayerState,
    body: &[u8],
    can_use: bool,
    restrictions: Restrictions,
) -> (res: Result<Greeting, String>)
    requires
        old(state)@.wf(),
    ensures
        final(state)@.wf(),
        match (hello_in(body@), res) {
            (Ok(hello), Ok(greeting)) => ({
                let (next, messages, kick) = greeted(
                    old(state)@,
                    hello,
                    can_use,
                    restrictions@,
                );
                &&& final(state)@ == next
                &&& message_views(greeting.messages@) == messages
                &&& match (greeting.kick, kick) {
                    (Some(text), Some(why)) => text@ == why,
                    (None, None) => true,
                    _ => false,
                }
            }),
            (Err(e), Err(text)) => text@ == buf::error_text(e) && final(state)@ == old(state)@,
            _ => false,
        },
{
    let hello = match read_hello(body) {
        Ok(hello) => hello,
        Err(e) => return Err(e.to_string()),
    };
    if hello.api_version != API_VERSION {
        return Ok(turn_away(hello.api_version));
    }
    let accepted: bool = match state.pending_handshake {
        Some(token) => token == hello.token,
        None => false,
    };
    if !accepted {
        let messages: Vec<Message> = vec![send_goodbye("Invalid handshake ID")];
        assert(message_views(messages@) =~= seq![goodbye("Invalid handshake ID"@)]);
        return Ok(Greeting { messages, kick: None });
    }
    state.pending_handshake = None;
    if !can_use {
        let messages: Vec<Message> = vec![send_goodbye("Missing axiom.use permission")];
        assert(message_views(messages@) =~= seq![goodbye("Missing axiom.use permission"@)]);
        return Ok(Greeting { messages, kick: None });
    }
    let messages = activate(state, restrictions);
    Ok(Greeting { messages, kick: None })
}

/// The players in a list, each with what is kept of them.
pub open spec fn table(entries: Seq<(PlayerKey, PlayerState)>) -> Map<PlayerKey, StateView>
    decreases entries.len(),
{
    if entries.len() == 0 {
        Map::empty()
    } else {
        table(entries.drop_last()).insert(entries.last().0, entries.last().1@)
    }
}

/// Whether no player is in the list twice.
pub open spec fn distinct_keys(entries: Seq<(PlayerKey, PlayerState)>) -> bool {
    forall|i: int, j: int| 0 <= i < j < entries.len() ==> entries[i].0 != entries[j].0
}

proof fn lemma_table(entries: Seq<(PlayerKey, PlayerState)>)
    requires
        distinct_keys(entries),
    ensures
        forall|i: int|
            0 <= i < entries.len() ==> table(entries).contains_key((#[trigger] entries[i]).0)
                && table(entries)[entries[i].0] == entries[i].1@,
        forall|key: PlayerKey| #[trigger] table(entries).contains_key(key) ==> exists|i: int|
            0 <= i < entries.len() && (#[trigger] entries[i]).0 == key,
    decreases entries.len(),
{
    if entries.len() > 0 {
        let init = entries.drop_last();
        lemma_table(init);
        assert forall|i: int| 0 <= i < entries.len() implies table(entries).contains_key(
            (#[trigger] entries[i]).0,
        ) && table(entries)[entries[i].0] == entries[i].1@ by {
            if i < init.len() {
                assert(init[i] == entries[i]);
            }
        }
        assert forall|key: PlayerKey| #[trigger] table(entries).contains_key(key) implies exists|
            i: int,
        |
            0 <= i < entries.len() && (#[trigger] entries[i]).0 == key by {
            if key == entries.last().0 {
                assert(entries[entries.len() - 1].0 == key);
            } else {
                assert(table(init).contains_key(key));
                let i = choose|i: int| 0 <= i < init.len() && (#[trigger] init[i]).0 == key;
                assert(entries[i].0 == key);
            }
        }
    }
}

/// Changing what is kept of one player changes the table there alone.
proof fn lemma_table_update(
    a: Seq<(PlayerKey, PlayerState)>,
    b: Seq<(PlayerKey, PlayerState)>,
    at: int,
)
    requires
        distinct_keys(a),
        0 <= at < a.len(),
        a.len() == b.len(),
        forall|i: int| 0 <= i < a.len() && i != at ==> a[i] == #[trigger] b[i],
        a[at].0 == b[at].0,
    ensures
        distinct_keys(b),
        table(b) == table(a).insert(a[at].0, b[at].1@),
{
    assert(distinct_keys(b)) by {
        assert forall|i: int, j: int| 0 <= i < j < b.len() implies b[i].0 != b[j].0 by {
            assert(a[i].0 != a[j].0);
            assert(a[i].0 == b[i].0);
            assert(a[j].0 == b[j].0);
        }
    }
    lemma_table(a);
    lemma_table(b);
    let want = table(a).insert(a[at].0, b[at].1@);
    assert forall|key: PlayerKey| table(b).contains_key(key) <==> want.contains_key(key) by {
        if table(b).contains_key(key) {
            let i = choose|i: int| 0 <= i < b.len() && (#[trigger] b[i]).0 == key;
            assert(a[i].0 == key);
        }
        if want.contains_key(key) && key != a[at].0 {
            let i = choose|i: int| 0 <= i < a.len() && (#[trigger] a[i]).0 == key;
            assert(b[i].0 == key);
        }
        if key == a[at].0 {
            assert(b[at].0 == key);
        }
    }
    assert forall|key: PlayerKey| #[trigger] table(b).contains_key(key) implies table(b)[key]
        == want[key] by {
        let i = choose|i: int| 0 <= i < b.len() && (#[trigger] b[i]).0 == key;
        assert(a[i].0 == key);
    }
    assert(table(b) =~= want);
}

/// What is kept of a player, or what would be if they were seen for the first time.
pub open spec fn state_in(players: Map<PlayerKey, StateView>, key: PlayerKey) -> StateView {
    if players.contains_key(key) {
        players[key]
    } else {
        fresh()
    }
}

/// The players once one of them said hello and is in the state `next` for it. Nothing is kept of
/// who is of another revision.
pub open spec fn greeted_in(
    players: Map<PlayerKey, StateView>,
    key: PlayerKey,
    hello: Hello,
    next: StateView,
) -> Map<PlayerKey, StateView> {
    if hello.api_version != API_VERSION {
        players
    } else {
        players.insert(key, next)
    }
}

/// Whether a player's client has completed the handshake.
pub open spec fn active_in(players: Map<PlayerKey, StateView>, key: PlayerKey) -> bool {
    players.contains_key(key) && players[key].active
}

/// What is kept of every player.
pub struct Players {
    entries: Vec<(PlayerKey, PlayerState)>,
}

impl View for Players {
    type V = Map<PlayerKey, StateView>;

    closed spec fn view(&self) -> Map<PlayerKey, StateView> {
        table(self.entries@)
    }
}

impl Players {
    /// No player is kept twice, and what is kept of each is within its limits.
    pub closed spec fn wf(&self) -> bool {
        &&& distinct_keys(self.entries@)
        &&& forall|i: int| 0 <= i < self.entries@.len() ==> (#[trigger] self.entries@[i]).1@.wf()
    }

    /// Nobody is known yet.
    pub fn new() -> (r: Self)
        ensures
            r.wf(),
            r@ == Map::<PlayerKey, StateView>::empty(),
    {
        Players { entries: Vec::new() }
    }

    /// Forgets everybody.
    pub fn clear(&mut self)
        ensures
            final(self).wf(),
            final(self)@ == Map::<PlayerKey, StateView>::empty(),
    {
        self.entries.clear();
    }

    /// Where a player stands in the list.
    fn find(&self, key: PlayerKey) -> (r: Option<usize>)
        requires
            self.wf(),
        ensures
            match r {
                Some(i) => i < self.entries@.len() && self.entries@[i as int].0 == key
                    && self@.contains_key(key) && self@[key] == self.entries@[i as int].1@,
                None => !self@.contains_key(key),
            },
    {
        let mut i: usize = 0;
        proof {
            lemma_table(self.entries@);
        }
        while i < self.entries.len()
            invariant
                i <= self.entries@.len(),
                distinct_keys(self.entries@),
                forall|k: int| 0 <= k < i ==> (#[trigger] self.entries@[k]).0 != key,
            decreases self.entries@.len() - i,
        {
            let known: PlayerKey = self.entries[i].0;
            if known.0 == key.0 && known.1 == key.1 {
                proof {
                    lemma_table(self.entries@);
                }
                return Some(i);
            }
            i += 1;
        }
        None
    }

    /// Where a player stands in the list; one who is not there yet is added.
    fn with_player(&mut self, key: PlayerKey) -> (r: usize)
        requires
            old(self).wf(),
        ensures
            final(self).wf(),
            r < final(self).entries@.len(),
            final(self).entries@[r as int].0 == key,
            final(self).entries@[r as int].1@ == state_in(old(self)@, key),
            final(self)@ == old(self)@.insert(key, state_in(old(self)@, key)),
    {
        let ghost before = self.entries@;
        match self.find(key) {
            Some(i) => {
                assert(self@.insert(key, self@[key]) =~= self@);
                i
            },
            None => {
                proof {
                    lemma_table(before);
                }
                let state = PlayerState::default();
                let ghost kept = (key, state);
                self.entries.push((key, state));
                proof {
                    let after = self.entries@;
                    assert(after.drop_last() =~= before);
                    assert forall|i: int, j: int| 0 <= i < j < after.len() implies after[i].0
                        != after[j].0 by {
                        if j == before.len() {
                            assert(before[i].0 == after[i].0);
                        }
                    }
                    assert forall|i: int| 0 <= i < after.len() implies (
                    #[trigger] after[i]).1@.wf() by {
                        if i < before.len() {
                            assert(before[i].1@.wf());
                        }
                    }
                }
                self.entries.len() - 1
            },
        }
    }

    /// Whether a player's client has completed the handshake.
    pub fn is_active(&self, key: PlayerKey) -> (r: bool)
        requires
            self.wf(),
        ensures
            r == active_in(self@, key),
    {
        match self.find(key) {
            Some(i) => self.entries[i].1.active,
            None => false,
        }
    }

    /// Keeps what the player asked for about pressure plates and the like.
    pub fn set_no_physical_trigger(&mut self, key: PlayerKey, enabled: bool)
        requires
            old(self).wf(),
        ensures
            final(self).wf(),
            final(self)@ == old(self)@.insert(
                key,
                StateView { no_physical_trigger: enabled, ..state_in(old(self)@, key) },
            ),
    {
        let at: usize = self.with_player(key);
        let ghost before = *self;
        self.entries[at].1.no_physical_trigger = enabled;
        proof {
            lemma_table_update(before.entries@, self.entries@, at as int);
            lemma_still_wf(before.entries@, self.entries@, at as int);
            assert(self@ =~= old(self)@.insert(
                key,
                StateView { no_physical_trigger: enabled, ..state_in(old(self)@, key) },
            ));
        }
    }

    /// Charges a block buffer of `sections` sections, and says whether the player is within
    /// their limit.
    pub fn consume_dispatch_sends(
        &mut self,
        key: PlayerKey,
        sections: usize,
        client_available: i32,
    ) -> (r: Result<(), String>)
        requires
            old(self).wf(),
        ensures
            final(self).wf(),
            ({
                let state = state_in(old(self)@, key);
                let count = if sections <= i32::MAX {
                    sections as i32
                } else {
                    i32::MAX
                };
                let left = charged(state.dispatch_sends_20, count, client_available);
                &&& final(self)@ == old(self)@.insert(
                    key,
                    StateView { dispatch_sends_20: Some(left), ..state },
                )
                &&& match r {
                    Ok(()) => within_limit(left as int),
                    Err(why) => !within_limit(left as int) && why@
                        == "you are sending updates too fast"@,
                }
            }),
    {
        let at: usize = self.with_player(key);
        let ghost before = *self;
        let count: i32 = if sections <= i32::MAX as usize { sections as i32 } else { i32::MAX };
        let within: bool = consume_dispatch_sends(
            &mut self.entries[at].1,
            count,
            client_available,
        );
        proof {
            lemma_table_update(before.entries@, self.entries@, at as int);
            lemma_still_wf(before.entries@, self.entries@, at as int);
            let state = state_in(old(self)@, key);
            assert(self@ =~= old(self)@.insert(
                key,
                StateView {
                    dispatch_sends_20: Some(
                        charged(state.dispatch_sends_20, count, client_available),
                    ),
                    ..state
                },
            ));
        }
        if within {
            Ok(())
        } else {
            Err("you are sending updates too fast".to_owned())
        }
    }

    /// Answers a client's hello.
    pub fn handle_hello(
        &mut self,
        key: PlayerKey,
        body: &[u8],
        can_use: bool,
        restrictions: Restrictions,
    ) -> (res: Result<Greeting, String>)
        requires
            old(self).wf(),
        ensures
            final(self).wf(),
            match (hello_in(body@), res) {
                (Ok(hello), Ok(greeting)) => ({
                    let (next, messages, kick) = greeted(
                        state_in(old(self)@, key),
                        hello,
                        can_use,
                        restrictions@,
                    );
                    &&& final(self)@ == greeted_in(old(self)@, key, hello, next)
                    &&& message_views(greeting.messages@) == messages
                    &&& match (greeting.kick, kick) {
                        (Some(text), Some(why)) => text@ == why,
                        (None, None) => true,
                        _ => false,
                    }
                }),
                (Err(e), Err(text)) => text@ == buf::error_text(e) && final(self)@ == old(self)@,
                _ => false,
            },
    {
        // Nothing is kept of a player whose hello cannot be read or who is of another version.
        let hello = match read_hello(body) {
            Ok(hello) => hello,
            Err(e) => return Err(e.to_string()),
        };
        if hello.api_version != API_VERSION {
            return Ok(turn_away(hello.api_version));
        }
        let at: usize = self.with_player(key);
        let ghost before = *self;
        let res = handle_hello(&mut self.entries[at].1, body, can_use, restrictions);
        proof {
            lemma_table_update(before.entries@, self.entries@, at as int);
            lemma_still_wf(before.entries@, self.entries@, at as int);
            assert(self@ =~= old(self)@.insert(key, self.entries@[at as int].1@));
        }
        res
    }
}

proof fn lemma_still_wf(
    a: Seq<(PlayerKey, PlayerState)>,
    b: Seq<(PlayerKey, PlayerState)>,
    at: int,
)
    requires
        0 <= at < a.len(),
        a.len() == b.len(),
        forall|i: int| 0 <= i < a.len() && i != at ==> a[i] == #[trigger] b[i],
        forall|i: int| 0 <= i < a.len() ==> (#[trigger] a[i]).1@.wf(),
        b[at].1@.wf(),
    ensures
        forall|i: int| 0 <= i < b.len() ==> (#[trigger] b[i]).1@.wf(),
{
    assert forall|i: int| 0 <= i < b.len() implies (#[trigger] b[i]).1@.wf() by {
        assert(a[i].1@.wf());
    }
}

/// The players who are online, taken by their contents.
pub open spec fn online_views(online: Seq<Online>) -> Seq<OnlineView> {
    Seq::new(online.len(), |i: int| online[i]@)
}

/// Messages, each with the place of the player it goes to.
pub open spec fn addressed(i: int, messages: Seq<MessageView>) -> Seq<(int, MessageView)> {
    Seq::new(messages.len(), |k: int| (i, messages[k]))
}

/// What a tick does to one player who is online, and what they are sent.
pub open spec fn ticked_one(
    players: Map<PlayerKey, StateView>,
    player: OnlineView,
    slow: bool,
) -> (Map<PlayerKey, StateView>, Seq<MessageView>) {
    if slow {
        let (next, messages) = slow_tick(state_in(players, player.key), player);
        (players.insert(player.key, next), messages)
    } else if players.contains_key(player.key) {
        let (next, messages) = quick_tick(players[player.key]);
        (players.insert(player.key, next), messages)
    } else {
        (players, Seq::empty())
    }
}

/// What a tick does to the players who are online from the one at `i` on, and what they are
/// sent.
pub open spec fn ticked_from(
    players: Map<PlayerKey, StateView>,
    online: Seq<OnlineView>,
    slow: bool,
    i: int,
) -> (Map<PlayerKey, StateView>, Seq<(int, MessageView)>)
    decreases online.len() - i,
{
    if i >= online.len() {
        (players, Seq::empty())
    } else {
        let (next, messages) = ticked_one(players, online[i], slow);
        let (end, rest) = ticked_from(next, online, slow, i + 1);
        (end, addressed(i, messages) + rest)
    }
}

/// The keys of the players who are online.
pub open spec fn keys_of(online: Seq<OnlineView>) -> Set<PlayerKey> {
    Set::new(|key: PlayerKey| exists|i: int| 0 <= i < online.len() && (#[trigger] online[i]).key == key)
}

/// What a tick does to everybody, and what they are sent. The tick of a second also forgets
/// whoever is no longer online.
pub open spec fn ticked(
    players: Map<PlayerKey, StateView>,
    online: Seq<OnlineView>,
    slow: bool,
) -> (Map<PlayerKey, StateView>, Seq<(int, MessageView)>) {
    let (end, messages) = ticked_from(players, online, slow, 0);
    (
        if slow {
            end.restrict(keys_of(online))
        } else {
            end
        },
        messages,
    )
}

/// Whether a tick is the one of a second.
pub fn is_slow(ticks: u64) -> (r: bool)
    ensures
        r == (ticks % 20 == 0),
{
    ticks % 20 == 0
}

/// Addressed messages, taken by their contents.
pub open spec fn sent_views(sent: Seq<(usize, Message)>) -> Seq<(int, MessageView)> {
    Seq::new(sent.len(), |i: int| (sent[i].0 as int, sent[i].1@))
}

/// Adds messages to one player to what is sent.
fn address(sent: &mut Vec<(usize, Message)>, i: usize, messages: Vec<Message>)
    ensures
        sent_views(final(sent)@) == sent_views(old(sent)@) + addressed(
            i as int,
            message_views(messages@),
        ),
{
    let ghost all = message_views(messages@);
    let ghost start = sent_views(sent@);
    assert(start + addressed(i as int, all.take(0)) =~= start);
    for message in it: messages
        invariant
            all == message_views(it.seq()),
            start == sent_views(old(sent)@),
            sent_views(sent@) == start + addressed(i as int, all.take(it.index() as int)),
    {
        let ghost k = it.index() as int;
        let ghost fresh = (i as int, message@);
        let ghost before = sent_views(sent@);
        sent.push((i, message));
        assert(sent_views(sent@) =~= before.push(fresh));
        assert(addressed(i as int, all.take(k + 1)) =~= addressed(i as int, all.take(k)).push(
            fresh,
        ));
        assert(before.push(fresh) =~= start + addressed(i as int, all.take(k + 1)));
    }
    assert(all.take(all.len() as int) =~= all);
}

impl Players {
    /// One tick for one player who is online.
    fn tick_one(&mut self, player: Online, slow: bool) -> (r: Vec<Message>)
        requires
            old(self).wf(),
        ensures
            final(self).wf(),
            (final(self)@, message_views(r@)) == ticked_one(old(self)@, player@, slow),
    {
        let ghost start = self@;
        let key: PlayerKey = player.key;
        assert(message_views(Seq::<Message>::empty()) =~= Seq::<MessageView>::empty());
        if slow {
            let at: usize = self.with_player(key);
            let ghost before = *self;
            let messages = tick_slowly(&mut self.entries[at].1, player);
            proof {
                lemma_table_update(before.entries@, self.entries@, at as int);
                lemma_still_wf(before.entries@, self.entries@, at as int);
                assert(self@ =~= start.insert(key, self.entries@[at as int].1@));
            }
            return messages;
        }
        match self.find(key) {
            Some(at) => {
                if self.entries[at].1.active {
                    let ghost before = *self;
                    let messages = top_up_dispatch_sends(&mut self.entries[at].1);
                    proof {
                        lemma_table_update(before.entries@, self.entries@, at as int);
                        lemma_still_wf(before.entries@, self.entries@, at as int);
                    }
                    messages
                } else {
                    assert(start.insert(key, start[key]) =~= start);
                    Vec::new()
                }
            },
            None => Vec::new(),
        }
    }

    /// Runs every tick: tops up each active player's buffer budget. Handshake offers
    /// and restriction refreshes only need checking once a second. Returns the messages to
    /// send, each with the place of its player among those online.
    pub fn tick(&mut self, online: Vec<Online>, slow: bool) -> (r: Vec<(usize, Message)>)
        requires
            old(self).wf(),
        ensures
            final(self).wf(),
            (final(self)@, sent_views(r@)) == ticked(old(self)@, online_views(online@), slow),
    {
        let ghost all = online_views(online@);
        let ghost start = self@;
        let count: usize = online.len();
        let mut keys: Vec<PlayerKey> = Vec::with_capacity(count);
        let mut sent: Vec<(usize, Message)> = Vec::new();
        let mut i: usize = 0;
        assert(sent_views(sent@) + ticked_from(start, all, slow, 0).1 =~= ticked_from(
            start,
            all,
            slow,
            0,
        ).1);
        for player in it: online
            invariant
                self.wf(),
                all == online_views(it.seq()),
                i == it.index(),
                it.seq().len() == count,
                keys@.len() == i,
                forall|k: int| 0 <= k < i ==> #[trigger] keys@[k] == all[k].key,
                ticked_from(self@, all, slow, i as int).0 == ticked_from(start, all, slow, 0).0,
                sent_views(sent@) + ticked_from(self@, all, slow, i as int).1 == ticked_from(
                    start,
                    all,
                    slow,
                    0,
                ).1,
        {
            let ghost before = self@;
            let ghost done = sent_views(sent@);
            assert(player@ == all[i as int]);
            keys.push(player.key);
            let messages = self.tick_one(player, slow);
            let ghost fresh = message_views(messages@);
            address(&mut sent, i, messages);
            proof {
                let rest = ticked_from(self@, all, slow, i + 1).1;
                assert(done + (addressed(i as int, fresh) + rest) =~= sent_views(sent@) + rest);
            }
            i += 1;
        }
        assert(sent_views(sent@) + Seq::<(int, MessageView)>::empty() =~= sent_views(sent@));
        if slow {
            // Drop state for players who are no longer online.
            self.retain(&keys);
            proof {
                assert forall|key: PlayerKey| keys@.contains(key) <==> keys_of(all).contains(key) by {
                    if keys@.contains(key) {
                        let k = choose|k: int| 0 <= k < keys@.len() && keys@[k] == key;
                        assert(all[k].key == key);
                    }
                    if keys_of(all).contains(key) {
                        let k = choose|k: int| 0 <= k < all.len() && (#[trigger] all[k]).key == key;
                        assert(keys@[k] == key);
                    }
                }
                assert(keys@.to_set() =~= keys_of(all));
            }
        }
        sent
    }

    /// Keeps the players with the given keys, and forgets the others.
    fn retain(&mut self, keys: &Vec<PlayerKey>)
        requires
            old(self).wf(),
        ensures
            final(self).wf(),
            final(self)@ == old(self)@.restrict(keys@.to_set()),
    {
        let mut all: Vec<(PlayerKey, PlayerState)> = Vec::new();
        std::mem::swap(&mut self.entries, &mut all);
        let ghost from = all@;
        assert(self@ =~= table(from.take(0)).restrict(keys@.to_set()));
        for kept in it: all
            invariant
                self.wf(),
                from == it.seq(),
                distinct_keys(from),
                forall|i: int| 0 <= i < from.len() ==> (#[trigger] from[i]).1@.wf(),
                self@ == table(from.take(it.index() as int)).restrict(keys@.to_set()),
        {
            let ghost i = it.index() as int;
            let ghost before = self.entries@;
            let ghost part = from.take(i);
            let ghost next = from.take(i + 1);
            proof {
                assert(next.drop_last() =~= part);
                assert(next.last() == kept);
                assert(distinct_keys(part));
                lemma_table(part);
                lemma_table(before);
                assert(from[i].1@.wf());
                assert(!table(part).contains_key(kept.0)) by {
                    if table(part).contains_key(kept.0) {
                        let k = choose|k: int| 0 <= k < part.len() && (#[trigger] part[k]).0 == kept.0;
                        assert(from[k].0 != from[i].0);
                    }
                }
            }
            if contains_key(keys, kept.0) {
                let ghost fresh = kept;
                self.entries.push(kept);
                proof {
                    let after = self.entries@;
                    assert(after.drop_last() =~= before);
                    assert forall|a: int, b: int| 0 <= a < b < after.len() implies after[a].0
                        != after[b].0 by {
                        if b == before.len() {
                            assert(before[a].0 == after[a].0);
                            assert(table(before).contains_key(before[a].0));
                        }
                    }
                    assert forall|a: int| 0 <= a < after.len() implies (
                    #[trigger] after[a]).1@.wf() by {
                        if a < before.len() {
                            assert(before[a].1@.wf());
                        }
                    }
                    assert(self@ =~= table(next).restrict(keys@.to_set()));
                }
            } else {
                assert(self@ =~= table(next).restrict(keys@.to_set()));
            }
        }
        assert(from.take(from.len() as int) =~= from);
    }
}

fn contains_key(keys: &Vec<PlayerKey>, key: PlayerKey) -> (r: bool)
    ensures
        r == keys@.contains(key),
{
    let mut i: usize = 0;
    while i < keys.len()
        invariant
            i <= keys@.len(),
            forall|k: int| 0 <= k < i ==> keys@[k] != key,
        decreases keys@.len() - i,
    {
        let known: PlayerKey = keys[i];
        if known.0 == key.0 && known.1 == key.1 {
            assert(keys@[i as int] == key);
            return true;
        }
        i += 1;
    }
    false
}

/// What a packet asks for, by its identifier.
#[derive(Clone, Copy, Debug, PartialEq, Eq, Structural)]
pub enum Route {
    Hello,
    SetBlock,
    SetBuffer,
    SetGamemode,
    SetFlySpeed,
    Teleport,
    SetWorldTime,
    SetNoPhysicalTrigger,
    RequestChunkData,
    DeleteEntity,
    RequestEntityData,
    ManipulateEntity,
    TickBlocks,
    AnnotationUpdate,
}

/// What a packet asks for. Unknown identifiers arrive whenever the client runs ahead of what
/// is understood here; ignoring them is friendly and safe, because nothing was applied.
pub open spec fn route_of(id: Seq<char>) -> Option<Route> {
    if id == "axiom:hello"@ {
        Some(Route::Hello)
    } else if id == "axiom:set_block"@ {
        Some(Route::SetBlock)
    } else if id == "axiom:set_buffer"@ {
        Some(Route::SetBuffer)
    } else if id == "axiom:set_gamemode"@ {
        Some(Route::SetGamemode)
    } else if id == "axiom:set_fly_speed"@ {
        Some(Route::SetFlySpeed)
    } else if id == "axiom:teleport"@ {
        Some(Route::Teleport)
    } else if id == "axiom:set_world_time"@ {
        Some(Route::SetWorldTime)
    } else if id == "axiom:set_no_physical_trigger"@ {
        Some(Route::SetNoPhysicalTrigger)
    } else if id == "axiom:request_chunk_data"@ {
        Some(Route::RequestChunkData)
    } else if id == "axiom:delete_entity"@ {
        Some(Route::DeleteEntity)
    } else if id == "axiom:request_entity_data"@ {
        Some(Route::RequestEntityData)
    } else if id == "axiom:manipulate_entity"@ {
        Some(Route::ManipulateEntity)
    } else if id == "axiom:tick_blocks"@ {
        Some(Route::TickBlocks)
    } else if id == "axiom:annotation_update"@ {
        Some(Route::AnnotationUpdate)
    } else {
        None
    }
}

/// What a packet asks for.
pub fn route(id: &str) -> (r: Option<Route>)
    ensures
        r == route_of(id@),
{
    if text::str_equal(id, "axiom:hello") {
        Some(Route::Hello)
    } else if text::str_equal(id, "axiom:set_block") {
        Some(Route::SetBlock)
    } else if text::str_equal(id, "axiom:set_buffer") {
        Some(Route::SetBuffer)
    } else if text::str_equal(id, "axiom:set_gamemode") {
        Some(Route::SetGamemode)
    } else if text::str_equal(id, "axiom:set_fly_speed") {
        Some(Route::SetFlySpeed)
    } else if text::str_equal(id, "axiom:teleport") {
        Some(Route::Teleport)
    } else if text::str_equal(id, "axiom:set_world_time") {
        Some(Route::SetWorldTime)
    } else if text::str_equal(id, "axiom:set_no_physical_trigger") {
        Some(Route::SetNoPhysicalTrigger)
    } else if text::str_equal(id, "axiom:request_chunk_data") {
        Some(Route::RequestChunkData)
    } else if text::str_equal(id, "axiom:delete_entity") {
        Some(Route::DeleteEntity)
    } else if text::str_equal(id, "axiom:request_entity_data") {
        Some(Route::RequestEntityData)
    } else if text::str_equal(id, "axiom:manipulate_entity") {
        Some(Route::ManipulateEntity)
    } else if text::str_equal(id, "axiom:tick_blocks") {
        Some(Route::TickBlocks)
    } else if text::str_equal(id, "axiom:annotation_update") {
        Some(Route::AnnotationUpdate)
    } else {
        None
    }
}

/// Every packet that a client is told of has a handler, but for the tunnel that the others
/// come through.
pub proof fn law_listed_packets_are_handled(i: int)
    requires
        0 <= i < supported().len(),
    ensures
        supported()[i]@ == "axiom:tunnel"@ || route_of(supported()[i]@) is Some,
{
}

/// What a player is kicked with whose packet could not be processed.
pub open spec fn failure_text(id: Seq<char>, reason: Seq<char>) -> Seq<char> {
    "Axiom: error while processing "@ + id + ": "@ + reason
}

/// What a player is kicked with whose packet could not be processed.
pub fn failure(id: &str, reason: &str) -> (r: String)
    ensures
        r@ == failure_text(id@, reason@),
{
    let mut out = String::new();
    out.append("Axiom: error while processing ");
    out.append(id);
    out.append(": ");
    out.append(reason);
    out
}

/// What an inbound plugin message comes to.
pub enum Incoming {
    /// Nothing is to be done.
    Ignored,
    /// A packet is to be processed.
    Packet(tunnel::Packet),
    /// The player is to be kicked with this reason.
    Kicked(String),
}

/// Whether a packet is passed on: a hello always is, anything else only from an active client.
pub open spec fn passes(
    players: Map<PlayerKey, StateView>,
    key: PlayerKey,
    id: Seq<char>,
) -> bool {
    id == "axiom:hello"@ || active_in(players, key)
}

/// The players once a message came in: a frame goes into the tunnel of an active client, and
/// whoever sends one is known from then on.
pub open spec fn received(
    players: Map<PlayerKey, StateView>,
    key: PlayerKey,
    channel: Seq<char>,
    data: Seq<u8>,
) -> Map<PlayerKey, StateView> {
    let state = state_in(players, key);
    if channel != "axiom:tunnel"@ {
        players
    } else if state.active {
        players.insert(key, StateView { tunnel: tunnel::stepped(state.tunnel, data).0, ..state })
    } else {
        players.insert(key, state)
    }
}

/// Whether this is what an inbound message comes to.
pub open spec fn comes_to(
    players: Map<PlayerKey, StateView>,
    key: PlayerKey,
    channel: Seq<char>,
    data: Seq<u8>,
    r: Incoming,
) -> bool {
    let state = state_in(players, key);
    if channel != "axiom:tunnel"@ {
        if passes(players, key, channel) {
            r matches Incoming::Packet(packet) && packet.id@ == channel && packet.body@ == data
        } else {
            r is Ignored
        }
    } else if !state.active {
        r is Ignored
    } else {
        match (r, tunnel::told(tunnel::stepped(state.tunnel, data).1)) {
            (Incoming::Packet(packet), Ok(Some((id, body)))) => packet.id@ == id && packet.body@
                == body,
            (Incoming::Ignored, Ok(None)) => true,
            (Incoming::Kicked(text), Err(fault)) => text@ == "Axiom: "@ + tunnel::fault_text(fault),
            _ => false,
        }
    }
}

fn tunnel_failure(e: &tunnel::Error) -> (r: String)
    ensures
        r@ == "Axiom: "@ + tunnel::fault_text(e@),
{
    let mut out = String::new();
    out.append("Axiom: ");
    out.append(e.to_string().as_str());
    out
}

impl Players {
    /// Takes one inbound `axiom:*` plugin message.
    pub fn on_payload(&mut self, key: PlayerKey, channel: &str, data: &[u8]) -> (r: Incoming)
        requires
            old(self).wf(),
        ensures
            final(self).wf(),
            final(self)@ == received(old(self)@, key, channel@, data@),
            comes_to(old(self)@, key, channel@, data@, r),
    {
        if !text::str_equal(channel, "axiom:tunnel") {
            if !text::str_equal(channel, "axiom:hello") && !self.is_active(key) {
                return Incoming::Ignored;
            }
            return Incoming::Packet(
                tunnel::Packet { id: channel.to_owned(), body: slice_to_vec(data) },
            );
        }
        let at: usize = self.with_player(key);
        if !self.entries[at].1.active {
            return Incoming::Ignored;
        }
        let ghost before = *self;
        let ghost state = state_in(old(self)@, key);
        assert(before.entries@[at as int].1@.wf());
        let pushed = self.entries[at].1.tunnel.push(data);
        proof {
            let next = StateView { tunnel: tunnel::stepped(state.tunnel, data@).0, ..state };
            assert(self.entries@[at as int].1@ =~= next);
            lemma_table_update(before.entries@, self.entries@, at as int);
            lemma_still_wf(before.entries@, self.entries@, at as int);
            assert(self@ =~= old(self)@.insert(key, next));
        }
        match pushed {
            Ok(Some(packet)) => Incoming::Packet(packet),
            Ok(None) => Incoming::Ignored,
            Err(e) => Incoming::Kicked(tunnel_failure(&e)),
        }
    }
}

/// Only a client that echoes the token it was offered, speaks the right version and belongs to
/// a player who may use Axiom becomes active.
pub proof fn law_only_an_echo_activates(
    state: StateView,
    hello: Hello,
    can_use: bool,
    restrictions: RestrictionsView,
)
    ensures
        greeted(state, hello, can_use, restrictions).0.active && !state.active ==> {
            &&& state.pending_handshake == Some(hello.token)
            &&& hello.api_version == API_VERSION
            &&& can_use
        },
{
}

/// No tick makes a client active.
pub proof fn law_ticks_activate_nobody(
    players: Map<PlayerKey, StateView>,
    online: Seq<OnlineView>,
    slow: bool,
    key: PlayerKey,
)
    ensures
        active_in(ticked(players, online, slow).0, key) ==> active_in(players, key),
{
    lemma_ticks_activate_nobody(players, online, slow, 0, key);
}

proof fn lemma_ticks_activate_nobody(
    players: Map<PlayerKey, StateView>,
    online: Seq<OnlineView>,
    slow: bool,
    i: int,
    key: PlayerKey,
)
    ensures
        active_in(ticked_from(players, online, slow, i).0, key) ==> active_in(players, key),
    decreases online.len() - i,
{
    if i < online.len() {
        lemma_ticks_activate_nobody(
            ticked_one(players, online[i], slow).0,
            online,
            slow,
            i + 1,
            key,
        );
    }
}

/// A token is good for one handshake: once it was echoed, it is refused.
pub proof fn law_token_works_once(
    state: StateView,
    hello: Hello,
    can_use: bool,
    restrictions: RestrictionsView,
)
    requires
        hello.api_version == API_VERSION,
        state.pending_handshake == Some(hello.token),
    ensures
        ({
            let next = greeted(state, hello, can_use, restrictions).0;
            greeted(next, hello, can_use, restrictions) == (
                next,
                seq![goodbye("Invalid handshake ID"@)],
                None::<Seq<char>>,
            )
        }),
{
}

/// A player who may not use Axiom is told so once.
pub proof fn law_told_once(state: StateView, player: OnlineView, again: OnlineView)
    requires
        !state.active,
        !player.can_use,
        !again.can_use,
    ensures
        ({
            let next = slow_tick(state, player).0;
            slow_tick(next, again) == (next, Seq::<MessageView>::empty())
        }),
{
}

/// A player who was offered a handshake is not offered another while it is pending.
pub proof fn law_offered_once(state: StateView, player: OnlineView, again: OnlineView)
    requires
        !state.active,
        player.can_use,
        again.can_use,
    ensures
        ({
            let next = slow_tick(state, player).0;
            slow_tick(next, again) == (next, Seq::<MessageView>::empty())
        }),
{
}

/// The tick of a second keeps nobody but those who are online.
pub proof fn law_offline_players_are_forgotten(
    players: Map<PlayerKey, StateView>,
    online: Seq<OnlineView>,
    key: PlayerKey,
)
    requires
        !keys_of(online).contains(key),
    ensures
        !ticked(players, online, true).0.contains_key(key),
{
}

/// The budget an active client is told of and the one that is kept grow alike: what the client
/// is told is by how many whole sections the budget has grown, and a full budget grows no more.
pub proof fn law_client_is_told_what_it_gains(left: i32)
    requires
        left <= FULL_BUDGET_20,
    ensures
        ({
            let after = topped_up(Some(left));
            let add = whole_sections(after as int) - whole_sections(left as int);
            &&& left <= after <= FULL_BUDGET_20
            &&& 0 <= add
            &&& top_up_messages(Some(left)) == if add == 0 {
                Seq::<MessageView>::empty()
            } else {
                seq![budget_message(add as i32)]
            }
        }),
{
}

/// A buffer within the budget that the client also believes it has is never over the limit.
pub proof fn law_spending_what_is_left_is_allowed(left: i32, sections: i32, client_available: i32)
    requires
        0 <= sections,
        sections * 20 <= left <= FULL_BUDGET_20,
        0 <= client_available,
    ensures
        0 <= charged(Some(left), sections, client_available) <= left,
{
}

} // verus!
