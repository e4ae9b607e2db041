//! The `axiom:tunnel` transport.
//!
//! Axiom multiplexes every serverbound packet over one plugin channel. A logical
//! packet is split into frames of at most `MAX_FRAME_LEN` bytes; each frame carries
//! a flag byte marking it as the first and/or last of its packet. Once reassembled
//! the payload is `identifier | i32 uncompressed_len | u8 flags | [zstd] body`.

use vstd::prelude::*;
use vstd::slice::{slice_subrange, slice_to_vec};
use vstd::string::*;

use crate::buf;
use crate::buf::Reader;
use crate::text;
use crate::wire;
use crate::zstd;

verus! {

pub const FRAME_FLAG_FIRST: u8 = 1;

pub const FRAME_FLAG_LAST: u8 = 2;

pub const PACKET_FLAG_ZSTD: u8 = 1;

/// Mirrors Axiom's `tunnel-split-size`.
pub const MAX_FRAME_LEN: usize = 31000;

/// Mirrors Axiom's `maximum-tunnel-packet-size`.
pub const MAX_PACKET_LEN: usize = 2 * 1024 * 1024;

/// A client that sends FIRST and then never LAST would grow the buffer forever. Cap
/// it at the same limit a finished packet is allowed to reach.
pub const MAX_PENDING_LEN: usize = MAX_PACKET_LEN;

#[derive(Debug)]
pub enum Error {
    FrameTooLarge(usize),
    EmptyFrame,
    PendingTooLarge,
    PacketTooLarge(usize),
    Decode(buf::Error),
    Zstd(String),
    /// Decompressed body did not match the declared length.
    SizeMismatch { declared: usize, actual: usize },
}

/// An error, with its text taken by its contents.
#[verifier::ext_equal]
pub enum Fault {
    FrameTooLarge(usize),
    EmptyFrame,
    PendingTooLarge,
    PacketTooLarge(usize),
    Decode(buf::Error),
    Zstd(Seq<char>),
    SizeMismatch { declared: usize, actual: usize },
}

impl View for Error {
    type V = Fault;

    open spec fn view(&self) -> Fault {
        match *self {
            Error::FrameTooLarge(n) => Fault::FrameTooLarge(n),
            Error::EmptyFrame => Fault::EmptyFrame,
            Error::PendingTooLarge => Fault::PendingTooLarge,
            Error::PacketTooLarge(n) => Fault::PacketTooLarge(n),
            Error::Decode(e) => Fault::Decode(e),
            Error::Zstd(e) => Fault::Zstd(e@),
            Error::SizeMismatch { declared, actual } => Fault::SizeMismatch { declared, actual },
        }
    }
}

/// The message of an error.
pub open spec fn fault_text(f: Fault) -> Seq<char> {
    match f {
        Fault::FrameTooLarge(n) => "sent split buffer that was too large ("@ + text::decimal(
            n as nat,
        ) + ")"@,
        Fault::EmptyFrame => "sent empty tunnel frame"@,
        Fault::PendingTooLarge => "reassembly buffer exceeded the packet limit"@,
        Fault::PacketTooLarge(n) => "sent packet was too large ("@ + text::decimal(n as nat)
            + ")"@,
        Fault::Decode(e) => "malformed tunnel packet: "@ + buf::error_text(e),
        Fault::Zstd(e) => "zstd failed to decompress: "@ + e,
        Fault::SizeMismatch { declared, actual } => "uncompressed size didn't match real size ("@
            + text::decimal(declared as nat) + " vs "@ + text::decimal(actual as nat) + ")"@,
    }
}

impl Error {
    /// The message shown for this error.
    pub fn to_string(&self) -> (r: String)
        ensures
            r@ == fault_text(self@),
    {
        let mut out = String::new();
        match self {
            Error::FrameTooLarge(n) => {
                out.append("sent split buffer that was too large (");
                text::push_decimal(&mut out, *n as u128);
                out.append(")");
            },
            Error::EmptyFrame => out.append("sent empty tunnel frame"),
            Error::PendingTooLarge => out.append("reassembly buffer exceeded the packet limit"),
            Error::PacketTooLarge(n) => {
                out.append("sent packet was too large (");
                text::push_decimal(&mut out, *n as u128);
                out.append(")");
            },
            Error::Decode(e) => {
                out.append("malformed tunnel packet: ");
                out.append(e.to_string().as_str());
            },
            Error::Zstd(e) => {
                out.append("zstd failed to decompress: ");
                out.append(e.as_str());
            },
            Error::SizeMismatch { declared, actual } => {
                out.append("uncompressed size didn't match real size (");
                text::push_decimal(&mut out, *declared as u128);
                out.append(" vs ");
                text::push_decimal(&mut out, *actual as u128);
                out.append(")");
            },
        }
        assert(out@ =~= fault_text(self@));
        out
    }
}

impl From<buf::Error> for Error {
    fn from(e: buf::Error) -> (r: Self) {
        Error::Decode(e)
    }
}

impl vstd::std_specs::convert::FromSpecImpl<buf::Error> for Error {
    open spec fn obeys_from_spec() -> bool {
        true
    }

    open spec fn from_spec(e: buf::Error) -> Self {
        Error::Decode(e)
    }
}

/// A fully reassembled, decompressed Axiom packet.
pub struct Packet {
    /// The `axiom:<name>` identifier the packet was tunnelled under.
    pub id: String,
    pub body: Vec<u8>,
}

/// What decompressing a body that declares `expected` bytes comes to.
///
/// A frame that holds exactly those bytes gives them. One that holds fewer is a mismatch, and
/// one that holds more is a mismatch by one. A fault up to the end of those bytes is reported.
pub open spec fn unzipped(frame: Seq<u8>, expected: nat) -> Result<Seq<u8>, Fault> {
    match zstd::drawn_and_on(Seq::empty(), frame, expected) {
        Ok((content, more)) => if content.len() + more == expected {
            Ok(content)
        } else {
            Err(
                Fault::SizeMismatch {
                    declared: expected as usize,
                    actual: (content.len() + more) as usize,
                },
            )
        },
        Err(why) => Err(Fault::Zstd(why)),
    }
}

/// The outcome of a decompression, with its parts taken by their contents.
pub open spec fn body_of(r: Result<Vec<u8>, Error>) -> Result<Seq<u8>, Fault> {
    match r {
        Ok(body) => Ok(body@),
        Err(e) => Err(e@),
    }
}

/// Takes a body that is filled if reading on finds the end of its frame.
pub fn at_end(body: Vec<u8>, extra: Result<usize, String>) -> (r: Result<Vec<u8>, Error>)
    requires
        body@.len() < usize::MAX,
    ensures
        body_of(r) == match extra {
            Ok(n) => if n == 0 {
                Ok::<Seq<u8>, Fault>(body@)
            } else {
                Err(
                    Fault::SizeMismatch {
                        declared: body@.len() as usize,
                        actual: (body@.len() + 1) as usize,
                    },
                )
            },
            Err(why) => Err(Fault::Zstd(why@)),
        },
{
    match extra {
        Ok(n) => if n == 0 {
            Ok(body)
        } else {
            Err(Error::SizeMismatch { declared: body.len(), actual: body.len() + 1 })
        },
        Err(why) => Err(Error::Zstd(why)),
    }
}

/// Decompresses into a buffer of exactly `expected` bytes, rejecting anything that
/// does not fill it — the declared size is what bounds our allocation, so a frame
/// that expands to more or less than it claimed is a protocol violation.
pub fn zstd_decompress(input: &[u8], expected: usize) -> (r: Result<Vec<u8>, Error>)
    requires
        expected <= MAX_PACKET_LEN,
    ensures
        body_of(r) == unzipped(input@, expected as nat),
        forall|data: Seq<u8>|
            data.len() == expected && input@ == #[trigger] zstd::raw_frame(data) ==> body_of(r)
                == Ok::<Seq<u8>, Fault>(data),
{
    let mut stream = match zstd::open(input) {
        Ok(stream) => stream,
        Err(why) => return Err(Error::Zstd(why)),
    };
    let mut out: Vec<u8> = vec![0u8; expected];
    let filled: usize = match zstd::fill(&mut stream, &mut out) {
        Ok(filled) => filled,
        Err(why) => return Err(Error::Zstd(why)),
    };
    if filled != expected {
        return Err(Error::SizeMismatch { declared: expected, actual: filled });
    }
    assert(out@.take(filled as int) =~= out@);
    proof {
        let content = zstd::frame_content(Seq::empty(), input@);
        if content.len() == expected {
            assert(content.take(filled as int) =~= content);
        }
    }
    // Anything still pending means the frame expanded past its declared size.
    let mut extra: Vec<u8> = vec![0u8; 1];
    at_end(out, zstd::fill(&mut stream, &mut extra))
}

/// What a reassembled payload comes to: the identifier and the body, or the error.
pub open spec fn decoded(payload: Seq<u8>) -> Result<(Seq<char>, Seq<u8>), Fault> {
    match wire::read_string(payload, 0) {
        (Err(e), _) => Err(Fault::Decode(e)),
        (Ok(id), q) => match wire::read_i32(payload, q) {
            (Err(e), _) => Err(Fault::Decode(e)),
            (Ok(declared), q2) => match wire::read_u8(payload, q2) {
                (Err(e), _) => Err(Fault::Decode(e)),
                (Ok(flags), q3) => if declared < 0 {
                    Err(Fault::PacketTooLarge(0))
                } else if declared > MAX_PACKET_LEN {
                    Err(Fault::PacketTooLarge(declared as usize))
                } else if flags & PACKET_FLAG_ZSTD == 0 {
                    Ok((id, payload.skip(q3)))
                } else {
                    match unzipped(payload.skip(q3), declared as nat) {
                        Ok(body) => Ok((id, body)),
                        Err(f) => Err(f),
                    }
                },
            },
        },
    }
}

/// The outcome of decoding a payload, with its parts taken by their contents.
pub open spec fn packet_of(r: Result<Packet, Error>) -> Result<(Seq<char>, Seq<u8>), Fault> {
    match r {
        Ok(packet) => Ok((packet.id@, packet.body@)),
        Err(e) => Err(e@),
    }
}

/// Takes a reassembled payload apart.
pub fn decode(payload: &[u8]) -> (r: Result<Packet, Error>)
    ensures
        packet_of(r) == decoded(payload@),
{
    let mut r = Reader::new(payload);
    let id = match r.string() {
        Ok(id) => id.to_owned(),
        Err(e) => return Err(Error::from(e)),
    };
    let declared: i32 = match r.i32() {
        Ok(n) => n,
        Err(e) => return Err(Error::from(e)),
    };
    let flags: u8 = match r.u8() {
        Ok(n) => n,
        Err(e) => return Err(Error::from(e)),
    };
    if declared < 0 {
        return Err(Error::PacketTooLarge(0));
    }
    let declared: usize = declared as usize;
    if declared > MAX_PACKET_LEN {
        return Err(Error::PacketTooLarge(declared));
    }
    let ghost at = r.at();
    let rest = r.rest();
    assert(rest@ =~= payload@.skip(at));
    let body = if flags & PACKET_FLAG_ZSTD == 0 {
        slice_to_vec(rest)
    } else {
        zstd_decompress(rest, declared)?
    };
    Ok(Packet { id, body })
}

/// What one frame leads to.
#[verifier::ext_equal]
pub enum Step {
    /// The frame is refused.
    Refused(Fault),
    /// More frames have to come.
    Waiting,
    /// The payload is whole and can be taken apart.
    Complete(Seq<u8>),
}

/// The reassembly state, taken by its contents.
#[verifier::ext_equal]
pub struct TunnelView {
    pub pending: Seq<u8>,
    pub open: bool,
    pub skipping: bool,
}

impl TunnelView {
    /// The buffer never holds more than a finished packet may.
    pub open spec fn bounded(self) -> bool {
        self.pending.len() <= MAX_PENDING_LEN
    }
}

/// No packet open, nothing to skip.
pub open spec fn idle() -> TunnelView {
    TunnelView { pending: Seq::empty(), open: false, skipping: false }
}

/// A packet open of which nothing has come yet.
pub open spec fn started() -> TunnelView {
    TunnelView { pending: Seq::empty(), open: true, skipping: false }
}

/// What a frame's flags and content do to a packet that takes more than one frame.
pub open spec fn appended(s: TunnelView, rest: Seq<u8>, last: bool) -> (TunnelView, Step) {
    if s.pending.len() + rest.len() > MAX_PENDING_LEN {
        (idle(), Step::Refused(Fault::PendingTooLarge))
    } else if last {
        (
            TunnelView { pending: Seq::empty(), open: false, ..s },
            Step::Complete(s.pending + rest),
        )
    } else {
        (TunnelView { pending: s.pending + rest, ..s }, Step::Waiting)
    }
}

/// What feeding one frame does to the state, and what it leads to.
pub open spec fn stepped(s: TunnelView, frame: Seq<u8>) -> (TunnelView, Step) {
    if frame.len() > MAX_FRAME_LEN {
        (s, Step::Refused(Fault::FrameTooLarge(frame.len() as usize)))
    } else if frame.len() == 0 {
        (s, Step::Refused(Fault::EmptyFrame))
    } else {
        let rest = frame.skip(1);
        let first = frame[0] & FRAME_FLAG_FIRST != 0;
        let last = frame[0] & FRAME_FLAG_LAST != 0;
        if first && last {
            (s, Step::Complete(rest))
        } else if first {
            appended(started(), rest, last)
        } else if s.skipping {
            (s, Step::Waiting)
        } else if !s.open {
            (TunnelView { skipping: true, ..s }, Step::Waiting)
        } else {
            appended(s, rest, last)
        }
    }
}

/// What whoever fed a frame is told of what it leads to: an error, nothing yet, or the packet.
pub open spec fn told(step: Step) -> Result<Option<(Seq<char>, Seq<u8>)>, Fault> {
    match step {
        Step::Refused(f) => Err(f),
        Step::Waiting => Ok(None),
        Step::Complete(payload) => match decoded(payload) {
            Ok(packet) => Ok(Some(packet)),
            Err(f) => Err(f),
        },
    }
}

/// The outcome of feeding a frame, with its parts taken by their contents.
pub open spec fn told_of(r: Result<Option<Packet>, Error>) -> Result<
    Option<(Seq<char>, Seq<u8>)>,
    Fault,
> {
    match r {
        Ok(Some(packet)) => Ok(Some((packet.id@, packet.body@))),
        Ok(None) => Ok(None),
        Err(e) => Err(e@),
    }
}

/// Per-player reassembly state.
pub struct Tunnel {
    pending: Vec<u8>,
    /// Set from the first frame of a packet to its last, whatever they carry.
    open: bool,
    /// Set when we dropped the first frame of a packet and must ignore the rest of it.
    skipping: bool,
}

impl View for Tunnel {
    type V = TunnelView;

    closed spec fn view(&self) -> TunnelView {
        TunnelView { pending: self.pending@, open: self.open, skipping: self.skipping }
    }
}

impl Default for Tunnel {
    fn default() -> (r: Self)
        ensures
            r@ == idle(),
    {
        Self::new()
    }
}

impl Tunnel {
    pub fn new() -> (r: Self)
        ensures
            r@ == idle(),
    {
        let r = Self { pending: Vec::new(), open: false, skipping: false };
        assert(r@ =~= idle());
        r
    }

    pub fn reset(&mut self)
        ensures
            final(self)@ == idle(),
    {
        self.pending.clear();
        self.open = false;
        self.skipping = false;
        assert(self@ =~= idle());
    }

    /// Feeds one `axiom:tunnel` frame, returning a packet once its last frame lands.
    pub fn push(&mut self, frame: &[u8]) -> (r: Result<Option<Packet>, Error>)
        requires
            old(self)@.bounded(),
        ensures
            final(self)@.bounded(),
            final(self)@ == stepped(old(self)@, frame@).0,
            told_of(r) == told(stepped(old(self)@, frame@).1),
    {
        let ghost before = self@;
        if frame.len() > MAX_FRAME_LEN {
            return Err(Error::FrameTooLarge(frame.len()));
        }
        if frame.len() == 0 {
            return Err(Error::EmptyFrame);
        }
        let flags: u8 = frame[0];
        let rest = slice_subrange(frame, 1, frame.len());
        let first: bool = flags & FRAME_FLAG_FIRST != 0;
        let last: bool = flags & FRAME_FLAG_LAST != 0;
        assert(rest@ =~= frame@.skip(1));
        if first && last {
            return match decode(rest) {
                Ok(packet) => Ok(Some(packet)),
                Err(e) => Err(e),
            };
        }
        if first {
            self.skipping = false;
            self.open = true;
            self.pending.clear();
            assert(self@ =~= started());
        } else if self.skipping {
            return Ok(None);
        } else if !self.open {
            // Joined mid-packet; wait for the next FIRST frame.
            self.skipping = true;
            return Ok(None);
        }
        let ghost open = self@;
        if self.pending.len() + rest.len() > MAX_PENDING_LEN {
            self.reset();
            return Err(Error::PendingTooLarge);
        }
        self.pending.extend_from_slice(rest);
        assert(self@ =~= TunnelView { pending: open.pending + rest@, ..open });
        if !last {
            return Ok(None);
        }
        let mut combined: Vec<u8> = Vec::new();
        std::mem::swap(&mut self.pending, &mut combined);
        self.open = false;
        assert(combined@ == open.pending + rest@);
        assert(self@ =~= TunnelView { pending: Seq::empty(), open: false, ..open });
        match decode(&combined) {
            Ok(packet) => Ok(Some(packet)),
            Err(e) => Err(e),
        }
    }
}

/// The flag byte of the frame that holds a payload's bytes from `offset` on.
pub open spec fn frame_flags(offset: int, last: bool) -> u8 {
    if offset == 0 && last {
        3
    } else if offset == 0 {
        1
    } else if last {
        2
    } else {
        0
    }
}

/// The frames of a payload from `offset` on.
pub open spec fn frames_from(payload: Seq<u8>, offset: int) -> Seq<Seq<u8>>
    decreases payload.len() - offset,
{
    let chunk = MAX_FRAME_LEN - 1;
    if offset + chunk >= payload.len() {
        seq![seq![frame_flags(offset, true)] + payload.skip(offset)]
    } else {
        seq![seq![frame_flags(offset, false)] + payload.subrange(offset, offset + chunk)]
            + frames_from(payload, offset + chunk)
    }
}

/// Byte strings, taken by their contents.
pub open spec fn contents(frames: Seq<Vec<u8>>) -> Seq<Seq<u8>> {
    Seq::new(frames.len(), |i: int| frames[i]@)
}

/// Splits a clientbound payload into tunnel frames. Axiom's client applies the same
/// reassembly rules in reverse.
pub fn split_frames(payload: &[u8]) -> (r: Vec<Vec<u8>>)
    ensures
        contents(r@) == frames_from(payload@, 0),
{
    let chunk: usize = MAX_FRAME_LEN - 1;
    let mut frames: Vec<Vec<u8>> = Vec::new();
    let mut offset: usize = 0;
    assert(contents(frames@) + frames_from(payload@, 0) =~= frames_from(payload@, 0));
    loop
        invariant
            chunk == MAX_FRAME_LEN - 1,
            offset <= payload@.len(),
            contents(frames@) + frames_from(payload@, offset as int) == frames_from(payload@, 0),
        decreases payload@.len() - offset,
    {
        let ghost before = contents(frames@);
        let last: bool = payload.len() - offset <= chunk;
        let end: usize = if last { payload.len() } else { offset + chunk };
        let mut flags: u8 = 0;
        if offset == 0 {
            flags = flags + FRAME_FLAG_FIRST;
        }
        if last {
            flags = flags + FRAME_FLAG_LAST;
        }
        let part = slice_subrange(payload, offset, end);
        let mut frame: Vec<u8> = Vec::with_capacity(chunk + 1);
        frame.push(flags);
        frame.extend_from_slice(part);
        let ghost fresh = frame@;
        assert(fresh =~= seq![frame_flags(offset as int, last)] + part@);
        frames.push(frame);
        assert(contents(frames@) =~= before.push(fresh));
        if last {
            assert(part@ =~= payload@.skip(offset as int));
            assert(contents(frames@) =~= before + frames_from(payload@, offset as int));
            return frames;
        }
        assert(before + frames_from(payload@, offset as int) =~= contents(frames@) + frames_from(
            payload@,
            end as int,
        ));
        offset = end;
    }
}

/// What feeding frames one after the other does to the state, and what each leads to.
pub open spec fn fed(s: TunnelView, frames: Seq<Seq<u8>>) -> (TunnelView, Seq<Step>)
    decreases frames.len(),
{
    if frames.len() == 0 {
        (s, Seq::empty())
    } else {
        let (next, step) = stepped(s, frames[0]);
        let (end, rest) = fed(next, frames.skip(1));
        (end, seq![step] + rest)
    }
}

/// Waiting until the last step, which brings a whole payload.
pub open spec fn completes(steps: Seq<Step>, payload: Seq<u8>) -> bool {
    &&& steps.len() > 0
    &&& steps.last() == Step::Complete(payload)
    &&& forall|i: int| 0 <= i < steps.len() - 1 ==> #[trigger] steps[i] == Step::Waiting
}

proof fn lemma_flags()
    ensures
        3u8 & FRAME_FLAG_FIRST != 0,
        3u8 & FRAME_FLAG_LAST != 0,
        1u8 & FRAME_FLAG_FIRST != 0,
        1u8 & FRAME_FLAG_LAST == 0,
        2u8 & FRAME_FLAG_FIRST == 0,
        2u8 & FRAME_FLAG_LAST != 0,
        0u8 & FRAME_FLAG_FIRST == 0,
        0u8 & FRAME_FLAG_LAST == 0,
{
    assert(3u8 & 1 != 0 && 3u8 & 2 != 0 && 1u8 & 1 != 0 && 1u8 & 2 == 0 && 2u8 & 1 == 0 && 2u8 & 2
        != 0 && 0u8 & 1 == 0 && 0u8 & 2 == 0) by (bit_vector);
}

proof fn lemma_frames_continue(s: TunnelView, payload: Seq<u8>, offset: int)
    requires
        0 < offset <= payload.len() <= MAX_PENDING_LEN,
        s == (TunnelView { pending: payload.take(offset), open: true, skipping: false }),
    ensures
        completes(fed(s, frames_from(payload, offset)).1, payload),
        fed(s, frames_from(payload, offset)).0 == idle(),
    decreases payload.len() - offset,
{
    let chunk = MAX_FRAME_LEN - 1;
    let frames = frames_from(payload, offset);
    let (next, step) = stepped(s, frames[0]);
    lemma_flags();
    if offset + chunk >= payload.len() {
        let frame = seq![frame_flags(offset, true)] + payload.skip(offset);
        assert(frames[0] == frame);
        assert(frame.skip(1) =~= payload.skip(offset));
        assert(payload.take(offset) + payload.skip(offset) =~= payload);
        assert(frames.skip(1) =~= Seq::<Seq<u8>>::empty());
        assert(fed(next, frames.skip(1)).1 =~= Seq::<Step>::empty());
        assert(fed(s, frames).1 =~= seq![step]);
    } else {
        let part = payload.subrange(offset, offset + chunk);
        let frame = seq![frame_flags(offset, false)] + part;
        assert(frames[0] == frame);
        assert(frame.skip(1) =~= part);
        assert(payload.take(offset) + part =~= payload.take(offset + chunk));
        assert(frames.skip(1) =~= frames_from(payload, offset + chunk));
        lemma_frames_continue(next, payload, offset + chunk);
        let rest = fed(next, frames.skip(1)).1;
        let steps = fed(s, frames).1;
        assert(steps =~= seq![step] + rest);
        assert forall|i: int| 0 <= i < steps.len() - 1 implies #[trigger] steps[i]
            == Step::Waiting by {
            if i > 0 {
                assert(steps[i] == rest[i - 1]);
            }
        }
    }
}

/// Feeding the frames of a payload, from whatever state, completes it with the last of them
/// and not before, as long as the payload is within the reassembly limit. What is told of the
/// last frame is what the payload decodes to, be it a packet or an error.
pub proof fn law_split_frames_reassemble(s: TunnelView, payload: Seq<u8>)
    requires
        payload.len() <= MAX_PENDING_LEN,
    ensures
        completes(fed(s, frames_from(payload, 0)).1, payload),
        fed(s, frames_from(payload, 0)).1.len() == frames_from(payload, 0).len(),
        forall|i: int|
            0 <= i < frames_from(payload, 0).len() - 1 ==> told(
                #[trigger] fed(s, frames_from(payload, 0)).1[i],
            ) == Ok::<Option<(Seq<char>, Seq<u8>)>, Fault>(None),
        told(fed(s, frames_from(payload, 0)).1.last()) == match decoded(payload) {
            Ok(packet) => Ok(Some(packet)),
            Err(f) => Err(f),
        },
        forall|i: int|
            0 <= i < frames_from(payload, 0).len() ==> 1 <= (#[trigger] frames_from(
                payload,
                0,
            )[i]).len() <= MAX_FRAME_LEN,
{
    let chunk = MAX_FRAME_LEN - 1;
    let frames = frames_from(payload, 0);
    let (next, step) = stepped(s, frames[0]);
    lemma_flags();
    lemma_frame_lengths(payload, 0);
    lemma_fed_len(s, frames);
    if chunk >= payload.len() {
        let frame = seq![3u8] + payload.skip(0);
        assert(frames[0] == frame);
        assert(frame.skip(1) =~= payload);
        assert(frames.skip(1) =~= Seq::<Seq<u8>>::empty());
        assert(fed(next, frames.skip(1)).1 =~= Seq::<Step>::empty());
        assert(fed(s, frames).1 =~= seq![step]);
    } else {
        let part = payload.subrange(0, chunk);
        let frame = seq![1u8] + part;
        assert(frames[0] == frame);
        assert(frame.skip(1) =~= part);
        assert(Seq::<u8>::empty() + part =~= payload.take(chunk));
        assert(frames.skip(1) =~= frames_from(payload, chunk));
        lemma_frames_continue(next, payload, chunk);
        let rest = fed(next, frames.skip(1)).1;
        let steps = fed(s, frames).1;
        assert(steps =~= seq![step] + rest);
        assert forall|i: int| 0 <= i < steps.len() - 1 implies #[trigger] steps[i]
            == Step::Waiting by {
            if i > 0 {
                assert(steps[i] == rest[i - 1]);
            }
        }
    }
}

proof fn lemma_fed_len(s: TunnelView, frames: Seq<Seq<u8>>)
    ensures
        fed(s, frames).1.len() == frames.len(),
    decreases frames.len(),
{
    if frames.len() > 0 {
        lemma_fed_len(stepped(s, frames[0]).0, frames.skip(1));
    }
}

/// An uncompressed packet that was split comes out of the tunnel as it went in, whatever state
/// the tunnel was in.
pub proof fn law_plain_packet_crosses_the_tunnel(
    s: TunnelView,
    id: Seq<char>,
    declared: i32,
    body: Seq<u8>,
)
    requires
        vstd::utf8::encode_utf8(id).len() <= wire::MAX_STRING_BYTES,
        0 <= declared <= MAX_PACKET_LEN,
        plain_packet(id, declared, body).len() <= MAX_PENDING_LEN,
    ensures
        told(fed(s, frames_from(plain_packet(id, declared, body), 0)).1.last()) == Ok::<
            Option<(Seq<char>, Seq<u8>)>,
            Fault,
        >(Some((id, body))),
{
    law_plain_packet_is_decoded(id, declared, body);
    law_split_frames_reassemble(s, plain_packet(id, declared, body));
}

proof fn lemma_frame_lengths(payload: Seq<u8>, offset: int)
    requires
        0 <= offset <= payload.len(),
    ensures
        forall|i: int|
            0 <= i < frames_from(payload, offset).len() ==> 1 <= (#[trigger] frames_from(
                payload,
                offset,
            )[i]).len() <= MAX_FRAME_LEN,
    decreases payload.len() - offset,
{
    let chunk = MAX_FRAME_LEN - 1;
    let frames = frames_from(payload, offset);
    if offset + chunk < payload.len() {
        let rest = frames_from(payload, offset + chunk);
        lemma_frame_lengths(payload, offset + chunk);
        assert forall|i: int| 0 <= i < frames.len() implies 1 <= (#[trigger] frames[i]).len()
            <= MAX_FRAME_LEN by {
            if i > 0 {
                assert(frames[i] == rest[i - 1]);
            }
        }
    }
}

/// Whatever frames come, the buffer stays within the packet limit.
pub proof fn law_pending_is_bounded(s: TunnelView, frames: Seq<Seq<u8>>)
    requires
        s.bounded(),
    ensures
        fed(s, frames).0.bounded(),
    decreases frames.len(),
{
    if frames.len() > 0 {
        law_pending_is_bounded(stepped(s, frames[0]).0, frames.skip(1));
    }
}

/// The reassembled form of an uncompressed packet: its identifier, its declared length, no
/// flags, its body.
pub open spec fn plain_packet(id: Seq<char>, declared: i32, body: Seq<u8>) -> Seq<u8> {
    wire::string_bytes(id) + wire::i32_bytes(declared) + seq![0u8] + body
}

/// An uncompressed packet is taken apart into the identifier and the body it was made of.
pub proof fn law_plain_packet_is_decoded(id: Seq<char>, declared: i32, body: Seq<u8>)
    requires
        vstd::utf8::encode_utf8(id).len() <= wire::MAX_STRING_BYTES,
        0 <= declared <= MAX_PACKET_LEN,
    ensures
        decoded(plain_packet(id, declared, body)) == Ok::<(Seq<char>, Seq<u8>), Fault>((id, body)),
{
    let head = wire::string_bytes(id);
    let len = wire::i32_bytes(declared);
    let d = head + len + seq![0u8] + body;
    assert(0u8 & 1 == 0) by (bit_vector);
    assert(d.subrange(0, d.len() as int) =~= d);
    wire::lemma_stands_split(d, 0, head + len + seq![0u8], body);
    wire::lemma_stands_split(d, 0, head + len, seq![0u8]);
    wire::lemma_stands_split(d, 0, head, len);
    wire::law_string_round_trip(d, 0, id);
    wire::law_i32_round_trip(d, head.len() as int, declared);
    wire::law_u8_round_trip(d, (head.len() + len.len()) as int, 0);
    assert(d.skip((head.len() + len.len() + 1) as int) =~= body);
}

/// Whether a frame is the first of its packet: its lowest bit.
pub open spec fn leads(frame: Seq<u8>) -> bool {
    frame[0] as int % 2 == 1
}

/// Whether a frame is the last of its packet: its second lowest bit.
pub open spec fn closes(frame: Seq<u8>) -> bool {
    frame[0] as int / 2 % 2 == 1
}

proof fn lemma_flag_bits(flags: u8)
    ensures
        (flags & FRAME_FLAG_FIRST != 0) == (flags as int % 2 == 1),
        (flags & FRAME_FLAG_LAST != 0) == (flags as int / 2 % 2 == 1),
{
    assert((flags & 1 != 0) == (flags % 2 == 1) && (flags & 2 != 0) == (flags / 2 % 2 == 1))
        by (bit_vector);
}

/// A frame that is both first and last carries a whole payload, and leaves what was being
/// reassembled alone.
pub proof fn law_single_frame_is_whole(s: TunnelView, frame: Seq<u8>)
    requires
        1 <= frame.len() <= 31_000,
        leads(frame),
        closes(frame),
    ensures
        stepped(s, frame) == (s, Step::Complete(frame.skip(1))),
{
    lemma_flag_bits(frame[0]);
}

/// A first frame starts a payload afresh, whatever was pending, open or being skipped.
pub proof fn law_first_frame_starts_afresh(s: TunnelView, frame: Seq<u8>)
    requires
        1 <= frame.len() <= 31_000,
        leads(frame),
        !closes(frame),
    ensures
        ({
            let (next, step) = stepped(s, frame);
            &&& step is Waiting
            &&& next.open && !next.skipping
            &&& next.pending == frame.skip(1)
        }),
{
    lemma_flag_bits(frame[0]);
    assert(Seq::empty() + frame.skip(1) =~= frame.skip(1));
}

/// While a payload is open, what a later frame carries is put behind what is pending, and the
/// last frame gives the whole and leaves nothing open. A payload of more than 2,097,152 bytes is
/// refused and forgotten.
pub proof fn law_later_frame_is_put_behind(s: TunnelView, frame: Seq<u8>)
    requires
        1 <= frame.len() <= 31_000,
        !leads(frame),
        s.open,
        !s.skipping,
    ensures
        ({
            let (next, step) = stepped(s, frame);
            let whole = s.pending + frame.skip(1);
            if whole.len() > 2_097_152 {
                &&& step == Step::Refused(Fault::PendingTooLarge)
                &&& !next.open && !next.skipping && next.pending.len() == 0
            } else if closes(frame) {
                &&& step == Step::Complete(whole)
                &&& !next.open && !next.skipping && next.pending.len() == 0
            } else {
                &&& step is Waiting
                &&& next.open && !next.skipping && next.pending == whole
            }
        }),
{
    lemma_flag_bits(frame[0]);
}

/// A later frame with no payload open is skipped, and so is every one behind it until a first
/// frame comes; nothing is refused and nothing is kept of them.
pub proof fn law_strays_are_skipped(s: TunnelView, frame: Seq<u8>)
    requires
        1 <= frame.len() <= 31_000,
        !leads(frame),
        !s.open || s.skipping,
    ensures
        stepped(s, frame).1 is Waiting,
        stepped(s, frame).0 == (TunnelView { skipping: true, ..s }),
{
    lemma_flag_bits(frame[0]);
}

/// A frame of more than 31,000 bytes and one of none are refused, and change nothing.
pub proof fn law_unfit_frames_change_nothing(s: TunnelView, frame: Seq<u8>)
    requires
        frame.len() == 0 || frame.len() > 31_000,
        frame.len() <= usize::MAX,
    ensures
        stepped(s, frame).0 == s,
        stepped(s, frame).1 == Step::Refused(
            if frame.len() == 0 {
                Fault::EmptyFrame
            } else {
                Fault::FrameTooLarge(frame.len() as usize)
            },
        ),
{
}

/// The frames of a payload are as few as they can be: all but the last are full, and their bytes
/// are the payload's, in order. Only the first is marked as first, and only the last as last.
pub proof fn law_frames_are_full(payload: Seq<u8>, i: int)
    requires
        0 <= i < frames_from(payload, 0).len(),
    ensures
        ({
            let frames = frames_from(payload, 0);
            let frame = frames[i];
            let end = if i + 1 < frames.len() {
                30_999 * (i + 1)
            } else {
                payload.len() as int
            };
            &&& 0 <= 30_999 * i <= end <= payload.len()
            &&& end <= 30_999 * (i + 1)
            &&& frame.len() >= 1
            &&& frame.skip(1) == payload.subrange(30_999 * i, end)
            &&& leads(frame) == (i == 0)
            &&& closes(frame) == (i + 1 == frames.len())
            &&& frame[0] < 4
        }),
{
    lemma_full_frames(payload, 0, i);
}

proof fn lemma_full_frames(payload: Seq<u8>, offset: int, i: int)
    requires
        0 <= offset <= payload.len(),
        0 <= i < frames_from(payload, offset).len(),
    ensures
        ({
            let frames = frames_from(payload, offset);
            let frame = frames[i];
            let start = offset + 30_999 * i;
            let end = if i + 1 < frames.len() {
                start + 30_999
            } else {
                payload.len() as int
            };
            &&& 0 <= start <= end <= payload.len()
            &&& end <= start + 30_999
            &&& frame.len() >= 1
            &&& frame.skip(1) == payload.subrange(start, end)
            &&& leads(frame) == (start == 0)
            &&& closes(frame) == (i + 1 == frames.len())
            &&& frame[0] < 4
        }),
    decreases payload.len() - offset,
{
    let frames = frames_from(payload, offset);
    let next = offset + 30_999;
    if next >= payload.len() {
        assert(frames[0].skip(1) =~= payload.subrange(offset, payload.len() as int));
    } else if i == 0 {
        assert(frames[0].skip(1) =~= payload.subrange(offset, next));
        assert(frames_from(payload, next).len() > 0);
    } else {
        lemma_full_frames(payload, next, i - 1);
        assert(frames[i] == frames_from(payload, next)[i - 1]);
    }
}

/// The length that a packet declares is checked before anything is made of its body: it may not
/// be negative, nor above 2,097,152.
pub proof fn law_declared_length_is_checked(
    id: Seq<char>,
    declared: i32,
    flags: u8,
    body: Seq<u8>,
)
    requires
        vstd::utf8::encode_utf8(id).len() <= wire::MAX_STRING_BYTES,
        declared < 0 || declared > 2_097_152,
    ensures
        decoded(wire::string_bytes(id) + wire::i32_bytes(declared) + seq![flags] + body) == Err::<
            (Seq<char>, Seq<u8>),
            Fault,
        >(
            Fault::PacketTooLarge(
                if declared < 0 {
                    0
                } else {
                    declared as usize
                },
            ),
        ),
{
    lemma_head_is_read(id, declared, flags, body);
}

/// A packet whose lowest flag is set carries a compressed body, which comes out under its
/// identifier if it expands to just the declared length. Any other flag is ignored.
pub proof fn law_flag_tells_a_compressed_body(
    id: Seq<char>,
    declared: i32,
    flags: u8,
    body: Seq<u8>,
)
    requires
        vstd::utf8::encode_utf8(id).len() <= wire::MAX_STRING_BYTES,
        0 <= declared <= 2_097_152,
    ensures
        decoded(wire::string_bytes(id) + wire::i32_bytes(declared) + seq![flags] + body)
            == if flags as int % 2 == 0 {
            Ok::<(Seq<char>, Seq<u8>), Fault>((id, body))
        } else {
            match unzipped(body, declared as nat) {
                Ok(content) => Ok((id, content)),
                Err(f) => Err(f),
            }
        },
{
    lemma_head_is_read(id, declared, flags, body);
    lemma_flag_bits(flags);
}

proof fn lemma_head_is_read(id: Seq<char>, declared: i32, flags: u8, body: Seq<u8>)
    requires
        vstd::utf8::encode_utf8(id).len() <= wire::MAX_STRING_BYTES,
    ensures
        ({
            let d = wire::string_bytes(id) + wire::i32_bytes(declared) + seq![flags] + body;
            let p = wire::string_bytes(id).len() as int;
            let q = p + wire::i32_bytes(declared).len();
            &&& wire::read_string(d, 0) == (Ok::<Seq<char>, buf::Error>(id), p)
            &&& wire::read_i32(d, p) == (Ok::<i32, buf::Error>(declared), q)
            &&& wire::read_u8(d, q) == (Ok::<u8, buf::Error>(flags), q + 1)
            &&& d.skip(q + 1) == body
        }),
{
    let head = wire::string_bytes(id);
    let len = wire::i32_bytes(declared);
    let d = head + len + seq![flags] + body;
    assert(d.subrange(0, d.len() as int) =~= d);
    wire::lemma_stands_split(d, 0, head + len + seq![flags], body);
    wire::lemma_stands_split(d, 0, head + len, seq![flags]);
    wire::lemma_stands_split(d, 0, head, len);
    wire::law_string_round_trip(d, 0, id);
    wire::law_i32_round_trip(d, head.len() as int, declared);
    wire::law_u8_round_trip(d, (head.len() + len.len()) as int, flags);
    assert(d.skip((head.len() + len.len() + 1) as int) =~= body);
}

/// A compressed body that can be decompressed to its end comes out if it holds just as many bytes
/// as were declared, and is refused with both numbers if it holds fewer. One that holds more is
/// refused as holding one more, whatever follows.
pub proof fn law_body_has_its_declared_length(frame: Seq<u8>, expected: nat)
    requires
        expected <= 2_097_152,
        zstd::frame_refusal(Seq::empty(), frame) is None,
    ensures
        ({
            let content = zstd::frame_content(Seq::empty(), frame);
            let fault = zstd::frame_fault(Seq::empty(), frame);
            let r = unzipped(frame, expected);
            &&& content.len() > expected ==> r == Err::<Seq<u8>, Fault>(
                Fault::SizeMismatch {
                    declared: expected as usize,
                    actual: (expected + 1) as usize,
                },
            )
            &&& content.len() <= expected ==> (fault matches Some(why) ==> r == Err::<
                Seq<u8>,
                Fault,
            >(Fault::Zstd(why)))
            &&& content.len() == expected && fault is None ==> r == Ok::<Seq<u8>, Fault>(content)
            &&& content.len() < expected && fault is None ==> r == Err::<Seq<u8>, Fault>(
                Fault::SizeMismatch { declared: expected as usize, actual: content.len() as usize },
            )
        }),
{
}

/// An error of the tunnel tells what is wrong, and the numbers it is wrong by.
pub proof fn law_faults_tell_what_is_wrong(n: usize, m: usize, e: buf::Error, why: Seq<char>)
    ensures
        fault_text(Fault::FrameTooLarge(n)) == "sent split buffer that was too large ("@
            + text::decimal(n as nat) + ")"@,
        fault_text(Fault::EmptyFrame) == "sent empty tunnel frame"@,
        fault_text(Fault::PendingTooLarge) == "reassembly buffer exceeded the packet limit"@,
        fault_text(Fault::PacketTooLarge(n)) == "sent packet was too large ("@ + text::decimal(
            n as nat,
        ) + ")"@,
        fault_text(Fault::Decode(e)) == "malformed tunnel packet: "@ + buf::error_text(e),
        fault_text(Fault::Zstd(why)) == "zstd failed to decompress: "@ + why,
        fault_text(Fault::SizeMismatch { declared: n, actual: m })
            == "uncompressed size didn't match real size ("@ + text::decimal(n as nat) + " vs "@
            + text::decimal(m as nat) + ")"@,
{
}

/// A packet whose identifier, declared length or flags are cut short is refused.
pub proof fn law_cut_head_is_refused(id: Seq<char>, declared: i32, flags: u8, n: int)
    requires
        vstd::utf8::encode_utf8(id).len() <= wire::MAX_STRING_BYTES,
        0 <= n < wire::string_bytes(id).len() + 5,
    ensures
        decoded((wire::string_bytes(id) + wire::i32_bytes(declared) + seq![flags]).take(n))
            == Err::<(Seq<char>, Seq<u8>), Fault>(Fault::Decode(buf::Error::Eof)),
{
    let whole = wire::string_bytes(id) + wire::i32_bytes(declared) + seq![flags];
    let p = wire::string_bytes(id).len() as int;
    wire::lemma_to_be_len(wire::unsigned(declared as int, 0x1_0000_0000) as nat, 4);
    assert(whole + Seq::empty() =~= whole);
    lemma_head_is_read(id, declared, flags, Seq::empty());
    crate::wire_laws::law_cut_fields(whole, 0, "string", 0, n);
    if p <= n {
        crate::wire_laws::law_cut_numbers(whole, p, n);
        if p + 4 <= n {
            crate::wire_laws::law_cut_numbers(whole, p + 4, n);
        }
    }
}

} // verus!
