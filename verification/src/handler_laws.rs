//! Laws of the player and world controls: what each packet does, said by what stands in it.

use vstd::prelude::*;
use vstd::string::*;

use crate::handlers;
use crate::handlers::{GameMode, GameModeGrants, Teleport};
use crate::text;
use crate::wire;

verus! {

/// A dimension is the same with and without the `minecraft:` namespace in front of it. Any other
/// is told apart by its whole id.
pub proof fn law_namespace_is_implicit(dimension: Seq<char>)
    ensures
        handlers::bare("minecraft:"@ + dimension) == dimension,
        !"minecraft:"@.is_prefix_of(dimension) ==> handlers::bare(dimension) == dimension,
{
    reveal_strlit("minecraft:");
    let whole = "minecraft:"@ + dimension;
    assert(whole.take(10) =~= "minecraft:"@);
    assert(whole.skip(10) =~= dimension);
    if dimension.len() >= 10 && dimension.take(10) == "minecraft:"@ {
        assert("minecraft:"@ =~= dimension.subrange(0, 10));
    }
}

/// A state is known where it is one of the first `count`, and keeps its id.
pub proof fn law_known_states_keep_their_ids(id: int, count: u32)
    ensures
        handlers::known_state(id, count) is Some <==> 0 <= id < count && id < 65536,
        handlers::known_state(id, count) matches Some(state) ==> state == id,
{
}

/// A game mode is switched to by who is granted that mode: 0 is survival, 1 creative, 2 adventure
/// and 3 spectator. There is no other.
pub proof fn law_game_mode_is_granted(body: Seq<u8>, n: u8, grants: GameModeGrants)
    requires
        wire::stands(body, 0, seq![n]),
    ensures
        ({
            let asked = handlers::gamemode_asked(body, grants);
            &&& n == 0 ==> asked == Ok::<Option<GameMode>, Seq<char>>(
                if grants.survival { Some(GameMode::Survival) } else { None },
            )
            &&& n == 1 ==> asked == Ok::<Option<GameMode>, Seq<char>>(
                if grants.creative { Some(GameMode::Creative) } else { None },
            )
            &&& n == 2 ==> asked == Ok::<Option<GameMode>, Seq<char>>(
                if grants.adventure { Some(GameMode::Adventure) } else { None },
            )
            &&& n == 3 ==> asked == Ok::<Option<GameMode>, Seq<char>>(
                if grants.spectator { Some(GameMode::Spectator) } else { None },
            )
            &&& n > 3 ==> asked == Err::<Option<GameMode>, Seq<char>>(
                "unknown game mode: "@ + text::signed_decimal(n as int),
            )
        }),
{
    wire::law_u8_round_trip(body, 0, n);
}

/// The fly speed is set by who may, to what was asked for, brought between minus one and one: its
/// sign stays, a number up to one in size stays as it is, a larger one becomes one in size, and
/// what is not a number stays as it is. The bits of one are 0x3f800000, and above the bits of
/// infinity, 0x7f800000, there are no numbers.
pub proof fn law_fly_speed_is_clamped(body: Seq<u8>, bits: u32)
    requires
        wire::stands(body, 0, wire::to_be(bits as nat, 4)),
    ensures
        handlers::fly_speed_asked(body, false) == Ok::<Option<u32>, Seq<char>>(None),
        handlers::fly_speed_asked(body, true) matches Ok(Some(set)) && {
            let size = bits % 0x8000_0000;
            &&& set / 0x8000_0000 == bits / 0x8000_0000
            &&& size <= 0x3f80_0000 || size > 0x7f80_0000 ==> set == bits
            &&& 0x3f80_0000 < size <= 0x7f80_0000 ==> set % 0x8000_0000 == 0x3f80_0000
        },
{
    wire::law_u32_round_trip(body, 0, bits);
}

/// A teleport goes to the first of the server's worlds that is of the dimension it names, at the
/// coordinates and angles that stand behind it in this order, for who may; where there is no such
/// world, or they may not, nowhere.
pub proof fn law_teleport_is_read(
    body: Seq<u8>,
    named: Seq<char>,
    to: Teleport,
    dimensions: Seq<String>,
    k: int,
)
    requires
        vstd::utf8::encode_utf8(named).len() <= wire::MAX_STRING_BYTES,
        wire::laid(
            body,
            0,
            seq![
                wire::string_bytes(named),
                wire::to_be(to.x as nat, 8),
                wire::to_be(to.y as nat, 8),
                wire::to_be(to.z as nat, 8),
                wire::to_be(to.yaw as nat, 4),
                wire::to_be(to.pitch as nat, 4),
            ],
        ),
    ensures
        handlers::teleport_asked(body, false, dimensions) == Ok::<Option<Teleport>, Seq<char>>(None),
        (forall|i: int|
            0 <= i < dimensions.len() ==> handlers::bare((#[trigger] dimensions[i])@)
                != handlers::bare(named)) ==> handlers::teleport_asked(body, true, dimensions)
            == Ok::<Option<Teleport>, Seq<char>>(None),
        0 <= k < dimensions.len() && handlers::bare(dimensions[k]@) == handlers::bare(named) && (
        forall|i: int|
            0 <= i < k ==> handlers::bare((#[trigger] dimensions[i])@) != handlers::bare(named))
            ==> handlers::teleport_asked(body, true, dimensions) == Ok::<
            Option<Teleport>,
            Seq<char>,
        >(
            Some(
                Teleport {
                    world: k as usize,
                    x: to.x,
                    y: to.y,
                    z: to.z,
                    yaw: to.yaw,
                    pitch: to.pitch,
                },
            ),
        ),
{
    let s = wire::string_bytes(named).len() as int;
    reveal_with_fuel(wire::laid, 7);
    wire::lemma_to_be_len(to.x as nat, 8);
    wire::lemma_to_be_len(to.y as nat, 8);
    wire::lemma_to_be_len(to.z as nat, 8);
    wire::lemma_to_be_len(to.yaw as nat, 4);
    wire::law_string_round_trip(body, 0, named);
    wire::law_u64_round_trip(body, s, to.x);
    wire::law_u64_round_trip(body, s + 8, to.y);
    wire::law_u64_round_trip(body, s + 16, to.z);
    wire::law_u32_round_trip(body, s + 24, to.yaw);
    wire::law_u32_round_trip(body, s + 28, to.pitch);
    lemma_dimension_place(dimensions, named, 0);
    if let Some(at) = handlers::dimension_place(dimensions, named, 0) {
        if 0 <= k < at {
            assert(handlers::bare(dimensions[k]@) != handlers::bare(named));
        }
        assert(handlers::bare(dimensions[at]@) == handlers::bare(named));
    }
}

proof fn lemma_dimension_place(dimensions: Seq<String>, named: Seq<char>, from: int)
    requires
        0 <= from <= dimensions.len(),
    ensures
        match handlers::dimension_place(dimensions, named, from) {
            Some(k) => {
                &&& from <= k < dimensions.len()
                &&& handlers::bare(dimensions[k]@) == handlers::bare(named)
                &&& forall|i: int|
                    from <= i < k ==> handlers::bare((#[trigger] dimensions[i])@) != handlers::bare(
                        named,
                    )
            },
            None => forall|i: int|
                from <= i < dimensions.len() ==> handlers::bare((#[trigger] dimensions[i])@)
                    != handlers::bare(named),
        },
    decreases dimensions.len() - from,
{
    if from < dimensions.len() {
        lemma_dimension_place(dimensions, named, from + 1);
    }
}

/// A number that is there or not, as it stands on the wire.
pub open spec fn optional_i32_bytes(n: Option<i32>) -> Seq<u8> {
    match n {
        Some(n) => seq![1u8] + wire::i32_bytes(n),
        None => seq![0u8],
    }
}

/// A flag that is there or not, as it stands on the wire.
pub open spec fn optional_bool_bytes(b: Option<bool>) -> Seq<u8> {
    match b {
        Some(b) => seq![1u8] + wire::bool_bytes(b),
        None => seq![0u8],
    }
}

/// The time of day is set to the distance of what was sent from zero, and time goes on unless it
/// was asked to freeze; what was not sent does not change. That is for who may, in the dimension
/// they are in, and nothing happens where nothing was sent.
pub proof fn law_world_time_is_changed(
    body: Seq<u8>,
    named: Seq<char>,
    time: Option<i32>,
    freeze: Option<bool>,
    allowed: bool,
    dimension: Seq<char>,
)
    requires
        vstd::utf8::encode_utf8(named).len() <= wire::MAX_STRING_BYTES,
        wire::laid(
            body,
            0,
            seq![wire::string_bytes(named), optional_i32_bytes(time), optional_bool_bytes(freeze)],
        ),
    ensures
        ({
            let asked = handlers::world_time_asked(body, allowed, dimension);
            let acts = allowed && handlers::bare(dimension) == handlers::bare(named) && (time
                is Some || freeze is Some);
            &&& asked is Ok
            &&& asked->Ok_0 is Some <==> acts
            &&& acts ==> {
                let change = asked->Ok_0->Some_0;
                &&& change.time_of_day is Some <==> time is Some
                &&& time matches Some(n) ==> change.time_of_day->Some_0 == if n < 0 {
                    -(n as int)
                } else {
                    n as int
                }
                &&& change.advance is Some <==> freeze is Some
                &&& freeze matches Some(frozen) ==> change.advance->Some_0 == !frozen
            }
        }),
{
    let s = wire::string_bytes(named).len() as int;
    let a = optional_i32_bytes(time);
    reveal_with_fuel(wire::laid, 4);
    wire::law_string_round_trip(body, 0, named);
    match time {
        Some(n) => {
            wire::lemma_stands_split(body, s, seq![1u8], wire::i32_bytes(n));
            wire::law_u8_round_trip(body, s, 1);
            wire::law_i32_round_trip(body, s + 1, n);
        },
        None => wire::law_u8_round_trip(body, s, 0),
    }
    let q = s + a.len();
    match freeze {
        Some(b) => {
            wire::lemma_stands_split(body, q, seq![1u8], wire::bool_bytes(b));
            wire::law_u8_round_trip(body, q, 1);
            wire::law_bool_round_trip(body, q + 1, b);
        },
        None => wire::law_u8_round_trip(body, q, 0),
    }
}

/// Pressure plates and the like are turned off and on as was asked, by who may.
pub proof fn law_trigger_is_set(body: Seq<u8>, enabled: bool)
    requires
        wire::stands(body, 0, wire::bool_bytes(enabled)),
    ensures
        handlers::no_physical_trigger_asked(body, true) == Ok::<Option<bool>, Seq<char>>(
            Some(enabled),
        ),
        handlers::no_physical_trigger_asked(body, false) == Ok::<Option<bool>, Seq<char>>(None),
{
    wire::law_bool_round_trip(body, 0, enabled);
}

/// With neighbour updates a block is placed as by hand; without them no neighbour is notified,
/// and the callbacks that would reshape it or replace its block entity are skipped. Nearby
/// clients hear of it either way, and its state is never forced.
pub proof fn law_placement_is_loud_or_quiet(update_neighbors: bool)
    ensures
        ({
            let flags = handlers::placement(update_neighbors);
            &&& flags.notify_neighbors == update_neighbors
            &&& flags.notify_listeners
            &&& flags.moved == !update_neighbors
            &&& flags.skip_block_added_callback == !update_neighbors
            &&& flags.skip_block_entity_replaced_callback == !update_neighbors
            &&& !flags.force_state
        }),
{
}

} // verus!
