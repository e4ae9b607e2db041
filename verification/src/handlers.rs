//! Serverbound packet handlers: what each packet asks for, and what is done about it.
//!
//! A handler takes the body of a packet and what it needs to know of the server and the
//! player, and returns what is to be done, or the reason the player is kicked for.

use vstd::prelude::*;
use vstd::string::*;

use crate::buf;
use crate::buf::{Error, Reader};
use crate::text;
use crate::wire;

verus! {

/// Bounds how many entries a single packet may declare before we start allocating for them.
pub const MAX_COLLECTION: usize = 1024;

/// A block position.
#[derive(Clone, Copy, Debug, PartialEq, Eq, Structural)]
pub struct BlockPos {
    pub x: i32,
    pub y: i32,
    pub z: i32,
}

/// A dimension id without an implicit `minecraft:` namespace.
pub open spec fn bare(dimension: Seq<char>) -> Seq<char> {
    if dimension.len() >= 10 && dimension.take(10) == "minecraft:"@ {
        dimension.skip(10)
    } else {
        dimension
    }
}

/// How many characters of a dimension id are its implicit namespace.
fn namespace_len(dimension: &Vec<char>) -> (r: usize)
    ensures
        r <= dimension@.len(),
        dimension@.skip(r as int) == bare(dimension@),
{
    let namespace = text::to_chars("minecraft:");
    proof {
        reveal_strlit("minecraft:");
        assert(dimension@.skip(0) =~= dimension@);
    }
    if dimension.len() < namespace.len() {
        return 0;
    }
    let mut i: usize = 0;
    while i < namespace.len()
        invariant
            i <= namespace@.len(),
            namespace@.len() == 10,
            namespace@ == "minecraft:"@,
            namespace@.len() <= dimension@.len(),
            dimension@.skip(0) == dimension@,
            forall|k: int| 0 <= k < i ==> dimension@[k] == namespace@[k],
        decreases namespace@.len() - i,
    {
        if dimension[i] != namespace[i] {
            assert(dimension@.take(10)[i as int] != namespace@[i as int]);
            return 0;
        }
        i += 1;
    }
    assert(dimension@.take(10) =~= namespace@);
    namespace.len()
}

/// Compares a dimension id off the wire with the server's, tolerating an implicit
/// `minecraft:` namespace on either side.
pub fn same_dimension(a: &str, b: &str) -> (r: bool)
    ensures
        r == (bare(a@) == bare(b@)),
{
    let a_chars = text::to_chars(a);
    let b_chars = text::to_chars(b);
    let i: usize = namespace_len(&a_chars);
    let j: usize = namespace_len(&b_chars);
    if a_chars.len() - i != b_chars.len() - j {
        assert(bare(a@).len() != bare(b@).len());
        return false;
    }
    let mut k: usize = 0;
    while k < a_chars.len() - i
        invariant
            i <= a_chars.len(),
            j <= b_chars.len(),
            a_chars.len() - i == b_chars.len() - j,
            k <= a_chars@.len() - i,
            a_chars@.skip(i as int) == bare(a@),
            b_chars@.skip(j as int) == bare(b@),
            forall|n: int| 0 <= n < k ==> bare(a@)[n] == bare(b@)[n],
        decreases a_chars@.len() - i - k,
    {
        if a_chars[i + k] != b_chars[j + k] {
            assert(bare(a@)[k as int] != bare(b@)[k as int]);
            return false;
        }
        k += 1;
    }
    assert(bare(a@) =~= bare(b@));
    true
}

/// How many bits it takes to tell `count` values apart; one at least.
pub fn direct_bits(count: u32) -> (r: u8)
    ensures
        r == crate::palette::address_bits(count as nat),
        1 <= r <= 32,
    decreases count,
{
    if count <= 2 {
        1
    } else {
        proof {
            lemma_direct_bits(count as nat);
        }
        1 + direct_bits(count / 2 + count % 2)
    }
}

proof fn lemma_direct_bits(count: nat)
    requires
        2 < count <= u32::MAX,
    ensures
        crate::palette::address_bits((count + 1) / 2) <= 31,
{
    vstd::arithmetic::power2::lemma2_to64();
    crate::palette::lemma_address_bits_bound((count + 1) / 2, 31);
}

/// Checks an id off the wire against the server's registry of `count` states.
///
/// `None` means the id names no block here; callers treat that as "leave this
/// block alone", which is the only safe reading — guessing a replacement would
/// silently rewrite the player's build.
pub fn server_state(id: u16, count: u32) -> (r: Option<u16>)
    ensures
        r == known_state(id as int, count),
{
    if (id as u32) < count {
        Some(id)
    } else {
        None
    }
}

/// An id off the wire, if it names a state of the server's registry.
pub open spec fn known_state(id: int, count: u32) -> Option<u16> {
    if 0 <= id <= 0xffff && id < count {
        Some(id as u16)
    } else {
        None
    }
}

/// How a block is put into the world.
#[derive(Clone, Copy, Debug, PartialEq, Eq, Structural)]
pub struct Placement {
    pub notify_neighbors: bool,
    pub notify_listeners: bool,
    pub moved: bool,
    pub skip_block_added_callback: bool,
    pub skip_block_entity_replaced_callback: bool,
    pub force_state: bool,
}

/// Flags matching Axiom's two placement modes.
pub open spec fn placement(update_neighbors: bool) -> Placement {
    Placement {
        notify_neighbors: update_neighbors,
        notify_listeners: true,
        moved: !update_neighbors,
        skip_block_added_callback: !update_neighbors,
        skip_block_entity_replaced_callback: !update_neighbors,
        force_state: false,
    }
}

/// Flags matching Axiom's two placement modes.
///
/// Without updates the state lands exactly as sent, without the placement callbacks that
/// would pop a torch off a wall or reshape a fence. Listeners still hear of the change, for
/// nearby clients. "Moved" is what actually suppresses the neighbour shape pass. Lighting
/// is refreshed regardless of flags, so it stays correct either way.
pub fn placement_flags(update_neighbors: bool) -> (r: Placement)
    ensures
        r == placement(update_neighbors),
{
    Placement {
        notify_neighbors: update_neighbors,
        notify_listeners: true,
        moved: !update_neighbors,
        skip_block_added_callback: !update_neighbors,
        skip_block_entity_replaced_callback: !update_neighbors,
        force_state: false,
    }
}

/// Flags for writing a block back as itself, which is what runs the neighbour updates.
pub fn tick_flags() -> (r: Placement)
    ensures
        r == (Placement { force_state: true, ..placement(true) }),
{
    Placement {
        notify_neighbors: true,
        notify_listeners: true,
        moved: false,
        skip_block_added_callback: false,
        skip_block_entity_replaced_callback: false,
        force_state: true,
    }
}

#[derive(Clone, Copy, Debug, PartialEq, Eq, Structural)]
pub enum GameMode {
    Survival,
    Creative,
    Adventure,
    Spectator,
}

/// Which game modes a player may switch to.
pub struct GameModeGrants {
    pub survival: bool,
    pub creative: bool,
    pub adventure: bool,
    pub spectator: bool,
}

impl GameModeGrants {
    /// Whether the player may switch to this mode.
    pub open spec fn allows(&self, mode: GameMode) -> bool {
        match mode {
            GameMode::Survival => self.survival,
            GameMode::Creative => self.creative,
            GameMode::Adventure => self.adventure,
            GameMode::Spectator => self.spectator,
        }
    }
}

/// The reason an error is told by.
pub open spec fn reason<T>(e: Error) -> Result<T, Seq<char>> {
    Err(buf::error_text(e))
}

/// What a handler says, with the reason taken by its contents.
pub open spec fn said<T>(r: Result<T, String>) -> Result<T, Seq<char>> {
    match r {
        Ok(v) => Ok(v),
        Err(text) => Err(text@),
    }
}

fn unknown(what: &str, n: i64) -> (r: String)
    ensures
        r@ == what@ + text::signed_decimal(n as int),
{
    let mut out = String::new();
    out.append(what);
    text::push_signed_decimal(&mut out, n);
    out
}

/// The game mode that a packet asks for, where the player may have it.
pub open spec fn gamemode_asked(body: Seq<u8>, grants: GameModeGrants) -> Result<
    Option<GameMode>,
    Seq<char>,
> {
    match wire::read_u8(body, 0) {
        (Err(e), _) => reason(e),
        (Ok(n), _) => if n > 3 {
            Err("unknown game mode: "@ + text::signed_decimal(n as int))
        } else {
            let mode = if n == 0 {
                GameMode::Survival
            } else if n == 1 {
                GameMode::Creative
            } else if n == 2 {
                GameMode::Adventure
            } else {
                GameMode::Spectator
            };
            Ok(
                if grants.allows(mode) {
                    Some(mode)
                } else {
                    None
                },
            )
        },
    }
}

/// `axiom:set_gamemode`
pub fn set_gamemode(body: &[u8], grants: &GameModeGrants) -> (r: Result<Option<GameMode>, String>)
    ensures
        said(r) == gamemode_asked(body@, *grants),
{
    let mut r = Reader::new(body);
    let n: u8 = match r.u8() {
        Ok(n) => n,
        Err(e) => return Err(e.to_string()),
    };
    let (mode, granted) = match n {
        0 => (GameMode::Survival, grants.survival),
        1 => (GameMode::Creative, grants.creative),
        2 => (GameMode::Adventure, grants.adventure),
        3 => (GameMode::Spectator, grants.spectator),
        _ => return Err(unknown("unknown game mode: ", n as i64)),
    };
    Ok(
        if granted {
            Some(mode)
        } else {
            None
        },
    )
}

/// The bit pattern of a single-precision number brought between minus one and one. What is
/// not a number stays as it is.
pub open spec fn clamped_bits(bits: u32) -> u32 {
    let magnitude = bits % 0x8000_0000;
    if 0x3f80_0000 < magnitude <= 0x7f80_0000 {
        (bits - magnitude + 0x3f80_0000) as u32
    } else {
        bits
    }
}

/// Brings a number, given by its bit pattern, between minus one and one.
pub fn clamp_unit(bits: u32) -> (r: u32)
    ensures
        r == clamped_bits(bits),
{
    let magnitude: u32 = bits % 0x8000_0000;
    if 0x3f80_0000 < magnitude && magnitude <= 0x7f80_0000 {
        bits - magnitude + 0x3f80_0000
    } else {
        bits
    }
}

/// The fly speed that a packet asks for, as a bit pattern, where the player may have it.
pub open spec fn fly_speed_asked(body: Seq<u8>, allowed: bool) -> Result<Option<u32>, Seq<char>> {
    match wire::read_u32(body, 0) {
        (Err(e), _) => reason(e),
        (Ok(bits), _) => Ok(
            if allowed {
                Some(clamped_bits(bits))
            } else {
                None
            },
        ),
    }
}

/// `axiom:set_fly_speed`
pub fn set_fly_speed(body: &[u8], allowed: bool) -> (r: Result<Option<u32>, String>)
    ensures
        said(r) == fly_speed_asked(body@, allowed),
{
    let mut r = Reader::new(body);
    match r.f32_bits() {
        Ok(bits) => Ok(
            if allowed {
                Some(clamp_unit(bits))
            } else {
                None
            },
        ),
        Err(e) => Err(e.to_string()),
    }
}

/// Where a player wants to be, with every number as its bit pattern.
#[derive(Clone, Copy, Debug, PartialEq, Eq, Structural)]
pub struct Teleport {
    /// Which of the server's worlds.
    pub world: usize,
    pub x: u64,
    pub y: u64,
    pub z: u64,
    pub yaw: u32,
    pub pitch: u32,
}

/// The first of the dimensions from `from` on that is the one asked for.
pub open spec fn dimension_place(
    dimensions: Seq<String>,
    wanted: Seq<char>,
    from: int,
) -> Option<int>
    decreases dimensions.len() - from,
{
    if from >= dimensions.len() {
        None
    } else if bare(dimensions[from]@) == bare(wanted) {
        Some(from)
    } else {
        dimension_place(dimensions, wanted, from + 1)
    }
}

/// Where a packet wants its player to be, where they may go there and the place exists.
pub open spec fn teleport_asked(
    body: Seq<u8>,
    allowed: bool,
    dimensions: Seq<String>,
) -> Result<Option<Teleport>, Seq<char>> {
    match wire::read_string(body, 0) {
        (Err(e), _) => reason(e),
        (Ok(dimension), q) => match wire::read_u64(body, q) {
            (Err(e), _) => reason(e),
            (Ok(x), q2) => match wire::read_u64(body, q2) {
                (Err(e), _) => reason(e),
                (Ok(y), q3) => match wire::read_u64(body, q3) {
                    (Err(e), _) => reason(e),
                    (Ok(z), q4) => match wire::read_u32(body, q4) {
                        (Err(e), _) => reason(e),
                        (Ok(yaw), q5) => match wire::read_u32(body, q5) {
                            (Err(e), _) => reason(e),
                            (Ok(pitch), _) => Ok(
                                match dimension_place(dimensions, dimension, 0) {
                                    Some(world) if allowed => Some(
                                        Teleport { world: world as usize, x, y, z, yaw, pitch },
                                    ),
                                    _ => None,
                                },
                            ),
                        },
                    },
                },
            },
        },
    }
}

/// Where a packet wants its player to be, in the dimension it names.
fn read_teleport<'a>(body: &'a [u8]) -> (res: Result<(&'a str, Teleport), Error>)
    ensures
        match res {
            Ok((dimension, to)) => forall|dimensions: Seq<String>| #[trigger]
                teleport_asked(body@, true, dimensions) == Ok::<Option<Teleport>, Seq<char>>(
                    match dimension_place(dimensions, dimension@, 0) {
                        Some(world) => Some(Teleport { world: world as usize, ..to }),
                        None => None,
                    },
                ),
            Err(e) => forall|dimensions: Seq<String>, allowed: bool| #[trigger]
                teleport_asked(body@, allowed, dimensions) == reason::<Option<Teleport>>(e),
        },
        res is Ok ==> forall|dimensions: Seq<String>| #[trigger]
            teleport_asked(body@, false, dimensions) == Ok::<Option<Teleport>, Seq<char>>(None),
{
    let mut r = Reader::new(body);
    let dimension = r.string()?;
    let x: u64 = r.f64_bits()?;
    let y: u64 = r.f64_bits()?;
    let z: u64 = r.f64_bits()?;
    let yaw: u32 = r.f32_bits()?;
    let pitch: u32 = r.f32_bits()?;
    Ok((dimension, Teleport { world: 0, x, y, z, yaw, pitch }))
}

/// `axiom:teleport`
pub fn teleport(body: &[u8], allowed: bool, dimensions: &Vec<String>) -> (r: Result<
    Option<Teleport>,
    String,
>)
    ensures
        said(r) == teleport_asked(body@, allowed, dimensions@),
{
    let (dimension, to) = match read_teleport(body) {
        Ok(read) => read,
        Err(e) => return Err(e.to_string()),
    };
    if !allowed {
        return Ok(None);
    }
    let mut i: usize = 0;
    while i < dimensions.len()
        invariant
            i <= dimensions@.len(),
            dimension_place(dimensions@, dimension@, i as int) == dimension_place(
                dimensions@,
                dimension@,
                0,
            ),
            teleport_asked(body@, true, dimensions@) == Ok::<Option<Teleport>, Seq<char>>(
                match dimension_place(dimensions@, dimension@, 0) {
                    Some(world) => Some(Teleport { world: world as usize, ..to }),
                    None => None,
                },
            ),
            allowed,
        decreases dimensions@.len() - i,
    {
        if same_dimension(dimensions[i].as_str(), dimension) {
            return Ok(
                Some(
                    Teleport {
                        world: i,
                        x: to.x,
                        y: to.y,
                        z: to.z,
                        yaw: to.yaw,
                        pitch: to.pitch,
                    },
                ),
            );
        }
        i += 1;
    }
    Ok(None)
}

/// What changes about the time of a world.
#[derive(Clone, Copy, Debug, PartialEq, Eq, Structural)]
pub struct TimeChange {
    pub time_of_day: Option<u32>,
    /// Whether time goes on.
    pub advance: Option<bool>,
}

/// A field that is there only if the flag in front of it says so.
pub open spec fn read_optional_i32(d: Seq<u8>, p: int) -> (Result<Option<i32>, Error>, int) {
    match wire::read_bool(d, p) {
        (Err(e), q) => (Err(e), q),
        (Ok(there), q) => if there {
            match wire::read_i32(d, q) {
                (Ok(n), q2) => (Ok(Some(n)), q2),
                (Err(e), q2) => (Err(e), q2),
            }
        } else {
            (Ok(None), q)
        },
    }
}

/// A flag that is there only if the flag in front of it says so.
pub open spec fn read_optional_bool(d: Seq<u8>, p: int) -> (Result<Option<bool>, Error>, int) {
    match wire::read_bool(d, p) {
        (Err(e), q) => (Err(e), q),
        (Ok(there), q) => if there {
            match wire::read_bool(d, q) {
                (Ok(b), q2) => (Ok(Some(b)), q2),
                (Err(e), q2) => (Err(e), q2),
            }
        } else {
            (Ok(None), q)
        },
    }
}

/// The distance of a number from zero.
pub open spec fn distance(n: i32) -> u32 {
    (if n < 0 {
        -n
    } else {
        n as int
    }) as u32
}

/// What a packet changes about the time of the world its player is in, where they may and
/// it is the world they mean.
pub open spec fn world_time_asked(
    body: Seq<u8>,
    allowed: bool,
    dimension: Seq<char>,
) -> Result<Option<TimeChange>, Seq<char>> {
    match wire::read_string(body, 0) {
        (Err(e), _) => reason(e),
        (Ok(wanted), q) => match read_optional_i32(body, q) {
            (Err(e), _) => reason(e),
            (Ok(time), q2) => match read_optional_bool(body, q2) {
                (Err(e), _) => reason(e),
                (Ok(freeze), _) => Ok(
                    if allowed && (time is Some || freeze is Some) && bare(dimension) == bare(
                        wanted,
                    ) {
                        Some(
                            TimeChange {
                                time_of_day: match time {
                                    Some(n) => Some(distance(n)),
                                    None => None,
                                },
                                advance: match freeze {
                                    Some(frozen) => Some(!frozen),
                                    None => None,
                                },
                            },
                        )
                    } else {
                        None
                    },
                ),
            },
        },
    }
}

fn optional_i32(r: &mut Reader<'_>) -> (res: Result<Option<i32>, Error>)
    requires
        old(r).wf(),
    ensures
        final(r).wf(),
        final(r).data() == old(r).data(),
        (res, final(r).at()) == read_optional_i32(old(r).data(), old(r).at()),
{
    let there: bool = r.bool()?;
    if there {
        let n: i32 = r.i32()?;
        Ok(Some(n))
    } else {
        Ok(None)
    }
}

fn optional_bool(r: &mut Reader<'_>) -> (res: Result<Option<bool>, Error>)
    requires
        old(r).wf(),
    ensures
        final(r).wf(),
        final(r).data() == old(r).data(),
        (res, final(r).at()) == read_optional_bool(old(r).data(), old(r).at()),
{
    let there: bool = r.bool()?;
    if there {
        let b: bool = r.bool()?;
        Ok(Some(b))
    } else {
        Ok(None)
    }
}

/// `axiom:set_world_time`
pub fn set_world_time(body: &[u8], allowed: bool, dimension: &str) -> (r: Result<
    Option<TimeChange>,
    String,
>)
    ensures
        said(r) == world_time_asked(body@, allowed, dimension@),
{
    let mut r = Reader::new(body);
    let wanted = match r.string() {
        Ok(wanted) => wanted,
        Err(e) => return Err(e.to_string()),
    };
    // Both fields are optional; the client sends whichever the user changed.
    let time: Option<i32> = match optional_i32(&mut r) {
        Ok(time) => time,
        Err(e) => return Err(e.to_string()),
    };
    let freeze: Option<bool> = match optional_bool(&mut r) {
        Ok(freeze) => freeze,
        Err(e) => return Err(e.to_string()),
    };
    if !allowed || (time.is_none() && freeze.is_none()) {
        return Ok(None);
    }
    if !same_dimension(dimension, wanted) {
        return Ok(None);
    }
    let time_of_day: Option<u32> = match time {
        Some(n) => Some(if n < 0 { (-(n as i64)) as u32 } else { n as u32 }),
        None => None,
    };
    let advance: Option<bool> = match freeze {
        Some(frozen) => Some(!frozen),
        None => None,
    };
    Ok(Some(TimeChange { time_of_day, advance }))
}

/// What a packet asks for about pressure plates and the like, where the player may ask.
pub open spec fn no_physical_trigger_asked(body: Seq<u8>, allowed: bool) -> Result<
    Option<bool>,
    Seq<char>,
> {
    match wire::read_bool(body, 0) {
        (Err(e), _) => reason(e),
        (Ok(enabled), _) => Ok(
            if allowed {
                Some(enabled)
            } else {
                None
            },
        ),
    }
}

/// `axiom:set_no_physical_trigger`
///
/// The flag is kept but not enforced: the server has nothing to cancel from a plugin, so a
/// player with this on still trips pressure plates.
pub fn set_no_physical_trigger(body: &[u8], allowed: bool) -> (r: Result<Option<bool>, String>)
    ensures
        said(r) == no_physical_trigger_asked(body@, allowed),
{
    let mut r = Reader::new(body);
    match r.bool() {
        Ok(enabled) => Ok(
            if allowed {
                Some(enabled)
            } else {
                None
            },
        ),
        Err(e) => Err(e.to_string()),
    }
}

} // verus!
