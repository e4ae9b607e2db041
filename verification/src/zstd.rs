//! Zstandard frames: reading them, and writing ones that store their content as it is.

use ruzstd::decoding::{Dictionary, FrameDecoder, StreamingDecoder};
use vstd::prelude::*;

use crate::wire;

verus! {

/// Largest content of one block.
pub const MAX_BLOCK: usize = 128 * 1024;

/// Largest content of a single-segment frame that a decoder takes on.
pub const MAX_WINDOW: usize = 128 * 1024 * 1024;

/// The header of a raw block: its length above three low bits, of which the lowest marks
/// the last block.
pub open spec fn block_header(len: nat, last: bool) -> Seq<u8> {
    wire::to_le(len * 8 + if last { 1nat } else { 0nat }, 3)
}

/// The content as raw blocks, each as long as a block may be but for the last.
pub open spec fn raw_blocks(data: Seq<u8>) -> Seq<u8>
    decreases data.len(),
{
    if data.len() <= MAX_BLOCK {
        block_header(data.len(), true) + data
    } else {
        block_header(MAX_BLOCK as nat, false) + data.take(MAX_BLOCK as int) + raw_blocks(
            data.skip(MAX_BLOCK as int),
        )
    }
}

/// The head of a frame: the magic number, a descriptor that says "single segment, four
/// bytes of content size, no dictionary, no checksum", and the content size.
pub open spec fn raw_head(len: nat) -> Seq<u8> {
    seq![0x28u8, 0xB5u8, 0x2Fu8, 0xFDu8, 0xA0u8] + wire::to_le(len % 0x1_0000_0000, 4)
}

/// A frame that stores its content in raw blocks.
pub open spec fn raw_frame(data: Seq<u8>) -> Seq<u8> {
    raw_head(data.len()) + raw_blocks(data)
}

/// `ruzstd::decoding::FrameDecoder`, which keeps dictionaries and the buffers of one frame.
#[verifier::external_type_specification]
#[verifier::external_body]
pub struct ExFrameDecoder(FrameDecoder);

/// The dictionaries that were added to the decoder, in the order they were added.
pub uninterp spec fn dictionaries(decoder: FrameDecoder) -> Seq<Seq<u8>>;

/// Why `Dictionary::decode_dict` refuses these bytes, in the words of its error, or `None`
/// where it takes them.
pub uninterp spec fn dictionary_refusal(raw: Seq<u8>) -> Option<Seq<char>>;

/// Why a decoder with these dictionaries refuses to take on this frame, in the words of the
/// error, or `None` where it takes it on.
pub uninterp spec fn frame_refusal(dictionaries: Seq<Seq<u8>>, frame: Seq<u8>) -> Option<Seq<char>>;

/// The bytes that reads hand out of this frame before they reach its end or its first fault.
pub uninterp spec fn frame_content(dictionaries: Seq<Seq<u8>>, frame: Seq<u8>) -> Seq<u8>;

/// The first fault in the blocks of this frame, in the words of the error, or `None` where
/// they decode to the end.
pub uninterp spec fn frame_fault(dictionaries: Seq<Seq<u8>>, frame: Seq<u8>) -> Option<Seq<char>>;

/// A frame that is being decompressed: `ruzstd::decoding::StreamingDecoder` over a byte slice,
/// with a decoder of its own or a borrowed one.
#[verifier::external_body]
pub struct Stream<'a> {
    inner: Box<dyn std::io::Read + 'a>,
}

/// The bytes that reads still hand out before they reach the frame's end or a fault.
pub uninterp spec fn unread(stream: Stream<'_>) -> Seq<u8>;

/// The fault that comes behind `unread`, in the words of the error, or `None` where the frame
/// ends there.
pub uninterp spec fn fault(stream: Stream<'_>) -> Option<Seq<char>>;

/// Whether a read has failed. What the decoder holds is of no use then.
pub uninterp spec fn broken(stream: Stream<'_>) -> bool;

/// `FrameDecoder::new`: a decoder without dictionaries.
pub assume_specification[ FrameDecoder::new ]() -> (r: FrameDecoder)
    ensures
        dictionaries(r) == Seq::<Seq<u8>>::empty(),
;

/// `Dictionary::decode_dict`, then `FrameDecoder::add_dict`, which takes every dictionary.
///
/// What the first refuses depends on the bytes alone.
#[verifier::external_body]
fn add_dictionary(decoder: &mut FrameDecoder, raw: &[u8]) -> (r: Result<(), String>)
    ensures
        match r {
            Ok(()) => dictionary_refusal(raw@) is None && dictionaries(*final(decoder))
                == dictionaries(*old(decoder)).push(raw@),
            Err(text) => dictionary_refusal(raw@) == Some(text@) && dictionaries(*final(decoder))
                == dictionaries(*old(decoder)),
        },
{
    match Dictionary::decode_dict(raw) {
        Ok(dictionary) => match decoder.add_dict(dictionary) {
            Ok(()) => Ok(()),
            Err(e) => Err(e.to_string()),
        },
        Err(e) => Err(e.to_string()),
    }
}

/// Where the frame is a raw one, it was taken on, and all of its content can be read.
pub open spec fn reads_raw(frame: Seq<u8>, r: Result<Stream<'_>, String>) -> bool {
    forall|data: Seq<u8>|
        data.len() <= MAX_WINDOW && frame == #[trigger] raw_frame(data) ==> match r {
            Ok(stream) => unread(stream) == data && fault(stream) is None,
            Err(_) => false,
        }
}

/// `StreamingDecoder::new`: reads the head of the frame with a fresh decoder.
///
/// A raw frame is taken on, and all of its content can be read.
#[verifier::external_body]
pub(crate) fn open<'a>(frame: &'a [u8]) -> (r: Result<Stream<'a>, String>)
    ensures
        match r {
            Ok(stream) => frame_refusal(Seq::empty(), frame@) is None && unread(stream)
                == frame_content(Seq::empty(), frame@) && fault(stream) == frame_fault(
                Seq::empty(),
                frame@,
            ) && !broken(stream),
            Err(text) => frame_refusal(Seq::empty(), frame@) == Some(text@),
        },
        reads_raw(frame@, r),
{
    match StreamingDecoder::new(frame) {
        Ok(stream) => Ok(Stream { inner: Box::new(stream) }),
        Err(e) => Err(e.to_string()),
    }
}

/// `StreamingDecoder::new_with_decoder`: reads the head of the frame with the decoder given,
/// which starts afresh but for its dictionaries. Those stay what they are.
///
/// A raw frame is taken on, and all of its content can be read.
#[verifier::external_body]
fn open_with<'a>(frame: &'a [u8], decoder: &'a mut FrameDecoder) -> (r: Result<
    Stream<'a>,
    String,
>)
    ensures
        dictionaries(*final(decoder)) == dictionaries(*old(decoder)),
        match r {
            Ok(stream) => frame_refusal(dictionaries(*old(decoder)), frame@) is None && unread(stream)
                == frame_content(dictionaries(*old(decoder)), frame@) && fault(stream) == frame_fault(
                dictionaries(*old(decoder)),
                frame@,
            ) && !broken(stream),
            Err(text) => frame_refusal(dictionaries(*old(decoder)), frame@) == Some(text@),
        },
        reads_raw(frame@, r),
{
    match StreamingDecoder::new_with_decoder(frame, decoder) {
        Ok(stream) => Ok(Stream { inner: Box::new(stream) }),
        Err(e) => Err(e.to_string()),
    }
}

/// `Read::read` of a `StreamingDecoder`, into the part of `out` from `filled` on.
///
/// It hands out some of the bytes ahead, at least one if there is any, and none at the end of
/// the frame. A block is decoded only once there is nothing left to hand out, so that what
/// comes does not depend on how long the reads are. A fault is reported where it stands.
#[verifier::external_body]
fn read(stream: &mut Stream<'_>, out: &mut Vec<u8>, filled: usize) -> (r: Result<usize, String>)
    requires
        filled < old(out)@.len(),
        !broken(*old(stream)),
    ensures
        final(out)@.len() == old(out)@.len(),
        match r {
            Ok(n) => ({
                let rest = unread(*old(stream));
                &&& n <= rest.len() && n <= old(out)@.len() - filled
                &&& n == 0 <==> rest.len() == 0
                &&& n == 0 ==> fault(*old(stream)) is None
                &&& final(out)@ == old(out)@.take(filled as int) + rest.take(n as int)
                    + old(out)@.skip(filled + n)
                &&& unread(*final(stream)) == rest.skip(n as int)
                &&& fault(*final(stream)) == fault(*old(stream))
                &&& !broken(*final(stream))
            }),
            Err(text) => unread(*old(stream)).len() == 0 && fault(*old(stream)) == Some(text@)
                && final(out)@ == old(out)@ && broken(*final(stream)),
        },
{
    match stream.inner.read(&mut out[filled..]) {
        Ok(n) => Ok(n),
        Err(e) => Err(e.to_string()),
    }
}

/// What reading `len` bytes comes to: the bytes, fewer only where the frame ends before, or
/// the fault that comes before.
pub open spec fn drawn(content: Seq<u8>, fault: Option<Seq<char>>, len: nat) -> Result<
    Seq<u8>,
    Seq<char>,
> {
    if len <= content.len() {
        Ok(content.take(len as int))
    } else {
        match fault {
            Some(why) => Err(why),
            None => Ok(content),
        }
    }
}

/// Reads until `out` is full or the frame ends, and says how many bytes came.
pub(crate) fn fill(stream: &mut Stream<'_>, out: &mut Vec<u8>) -> (r: Result<usize, String>)
    requires
        !broken(*old(stream)),
    ensures
        final(out)@.len() == old(out)@.len(),
        match (r, drawn(unread(*old(stream)), fault(*old(stream)), old(out)@.len())) {
            (Ok(n), Ok(bytes)) => n == bytes.len() && final(out)@.take(n as int) == bytes
                && unread(*final(stream)) == unread(*old(stream)).skip(n as int)
                && fault(*final(stream)) == fault(*old(stream)) && !broken(*final(stream)),
            (Err(text), Err(why)) => text@ == why,
            _ => false,
        },
{
    let ghost all = unread(*stream);
    let mut filled: usize = 0;
    assert(all.skip(0) =~= all);
    assert(out@.take(0) =~= all.take(0));
    while filled < out.len()
        invariant
            filled <= out@.len(),
            filled <= all.len(),
            out@.len() == old(out)@.len(),
            all == unread(*old(stream)),
            out@.take(filled as int) == all.take(filled as int),
            unread(*stream) == all.skip(filled as int),
            fault(*stream) == fault(*old(stream)),
            !broken(*stream),
        decreases out@.len() - filled,
    {
        let ghost before = out@;
        let n: usize = read(stream, out, filled)?;
        proof {
            assert(all.skip(filled as int).skip(n as int) =~= all.skip(filled + n));
            assert(all.take(filled + n) =~= all.take(filled as int) + all.skip(
                filled as int,
            ).take(n as int));
            assert(out@.take(filled + n) =~= before.take(filled as int) + all.skip(
                filled as int,
            ).take(n as int));
        }
        if n == 0 {
            assert(all.take(filled as int) =~= all);
            return Ok(filled);
        }
        filled += n;
    }
    Ok(filled)
}

/// A decoder that is kept from frame to frame, with the dictionaries that frames may refer to.
pub struct Decoder {
    frames: FrameDecoder,
}

impl Decoder {
    /// The dictionaries that frames may refer to.
    pub closed spec fn dictionaries(&self) -> Seq<Seq<u8>> {
        dictionaries(self.frames)
    }

    /// A decoder without a dictionary.
    pub fn new() -> (r: Self)
        ensures
            r.dictionaries() == Seq::<Seq<u8>>::empty(),
    {
        Self { frames: FrameDecoder::new() }
    }

    /// A decoder with one dictionary, unless the dictionary is unusable.
    pub fn with_dictionary(raw: &[u8]) -> (r: Result<Self, String>)
        ensures
            match r {
                Ok(decoder) => dictionary_refusal(raw@) is None && decoder.dictionaries()
                    == seq![raw@],
                Err(text) => dictionary_refusal(raw@) == Some(text@),
            },
    {
        let mut frames = FrameDecoder::new();
        add_dictionary(&mut frames, raw)?;
        assert(Seq::<Seq<u8>>::empty().push(raw@) =~= seq![raw@]);
        Ok(Self { frames })
    }

    /// Decompresses up to `out.len()` bytes of a frame, and says how many came. Where `out` is
    /// full, the second number says whether reading on finds another byte.
    pub(crate) fn read_frame(&mut self, frame: &[u8], out: &mut Vec<u8>) -> (r: Result<
        (usize, usize),
        String,
    >)
        ensures
            final(self).dictionaries() == old(self).dictionaries(),
            final(out)@.len() == old(out)@.len(),
            match (r, drawn_and_on(old(self).dictionaries(), frame@, old(out)@.len())) {
                (Ok((n, more)), Ok((bytes, further))) => n == bytes.len() && final(out)@.take(
                    n as int,
                ) == bytes && more == further,
                (Err(text), Err(why)) => text@ == why,
                _ => false,
            },
            forall|data: Seq<u8>|
                data.len() <= MAX_WINDOW && frame@ == #[trigger] raw_frame(data)
                    && old(out)@.len() == data.len() ==> r == Ok::<(usize, usize), String>(
                    (data.len() as usize, 0),
                ) && final(out)@ == data,
    {
        let ghost content = frame_content(self.dictionaries(), frame@);
        let mut stream = open_with(frame, &mut self.frames)?;
        let filled: usize = fill(&mut stream, out)?;
        proof {
            assert(out@.take(out@.len() as int) =~= out@);
            assert(content.take(content.len() as int) =~= content);
        }
        if filled < out.len() {
            return Ok((filled, 0));
        }
        let mut extra: Vec<u8> = vec![0u8; 1];
        let more: usize = fill(&mut stream, &mut extra)?;
        Ok((filled, more))
    }
}

/// What reading `len` bytes of a frame and then one more comes to: the bytes, and how many
/// came behind them.
pub open spec fn drawn_and_on(dictionaries: Seq<Seq<u8>>, frame: Seq<u8>, len: nat) -> Result<
    (Seq<u8>, nat),
    Seq<char>,
> {
    let content = frame_content(dictionaries, frame);
    let fault = frame_fault(dictionaries, frame);
    match frame_refusal(dictionaries, frame) {
        Some(why) => Err(why),
        None => if content.len() > len {
            Ok((content.take(len as int), 1))
        } else {
            match fault {
                Some(why) => Err(why),
                None => Ok((content, 0)),
            }
        },
    }
}

} // verus!
