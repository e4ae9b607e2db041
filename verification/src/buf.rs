//! Minecraft `FriendlyByteBuf` wire primitives.
//!
//! Everything here parses untrusted bytes off the network, so every read is
//! bounds-checked and returns a `Result`.

use vstd::prelude::*;
use vstd::slice::slice_subrange;
use vstd::string::*;
use vstd::utf8::*;

use crate::text;
use crate::wire;

verus! {

/// Why a read failed.
#[derive(Debug, PartialEq, Eq)]
pub enum Error {
    /// Ran off the end of the buffer.
    Eof,
    /// A VarInt or VarLong used more continuation bytes than the type allows.
    VarTooLong,
    /// A string field was not valid UTF-8.
    BadUtf8,
    /// A length-prefixed field declared more bytes than we are willing to allocate.
    TooLarge { what: &'static str, len: usize, max: usize },
    /// Handler finished before consuming the whole packet.
    Trailing(usize),
    /// Well-formed bytes that are not the value the field needs.
    Unexpected(&'static str),
}

/// The message of an error.
pub open spec fn error_text(e: Error) -> Seq<char> {
    match e {
        Error::Eof => "unexpected end of buffer"@,
        Error::VarTooLong => "varint too long"@,
        Error::BadUtf8 => "invalid utf-8"@,
        Error::TooLarge { what, len, max } => what@ + " too large: "@ + text::decimal(len as nat)
            + " > "@ + text::decimal(max as nat),
        Error::Trailing(n) => text::decimal(n as nat) + " trailing bytes left unread"@,
        Error::Unexpected(what) => what@,
    }
}

impl Error {
    /// The message shown for this error.
    pub fn to_string(&self) -> (r: String)
        ensures
            r@ == error_text(*self),
    {
        let mut out = String::new();
        match self {
            Error::Eof => out.append("unexpected end of buffer"),
            Error::VarTooLong => out.append("varint too long"),
            Error::BadUtf8 => out.append("invalid utf-8"),
            Error::TooLarge { what, len, max } => {
                out.append(what);
                out.append(" too large: ");
                text::push_decimal(&mut out, *len as u128);
                out.append(" > ");
                text::push_decimal(&mut out, *max as u128);
            },
            Error::Trailing(n) => {
                text::push_decimal(&mut out, *n as u128);
                out.append(" trailing bytes left unread");
            },
            Error::Unexpected(what) => out.append(what),
        }
        assert(out@ =~= error_text(*self));
        out
    }
}

/// A cursor over borrowed bytes.
pub struct Reader<'a> {
    data: &'a [u8],
    pos: usize,
}

/// What a slice result says, with the slice taken by its contents.
pub open spec fn bytes_of(r: Result<&[u8], Error>) -> Result<Seq<u8>, Error> {
    match r {
        Ok(s) => Ok(s@),
        Err(e) => Err(e),
    }
}

/// What a string result says, with the string taken by its contents.
pub open spec fn chars_of(r: Result<&str, Error>) -> Result<Seq<char>, Error> {
    match r {
        Ok(s) => Ok(s@),
        Err(e) => Err(e),
    }
}

impl<'a> Reader<'a> {
    /// The whole buffer.
    pub closed spec fn data(&self) -> Seq<u8> {
        self.data@
    }

    /// Where the next read starts.
    pub closed spec fn at(&self) -> int {
        self.pos as int
    }

    /// The cursor stands inside the buffer or at its end.
    pub open spec fn wf(&self) -> bool {
        0 <= self.at() <= self.data().len() <= usize::MAX
    }

    /// This reader goes over the same buffer as `other` and stands at `at`.
    pub open spec fn moved(&self, other: &Reader<'a>, at: int) -> bool {
        self.wf() && self.data() == other.data() && self.at() == at
    }

    pub fn new(data: &'a [u8]) -> (r: Self)
        ensures
            r.wf(),
            r.data() == data@,
            r.at() == 0,
    {
        assert(data.len() == data@.len());
        Self { data, pos: 0 }
    }

    pub fn remaining(&self) -> (r: usize)
        requires
            self.wf(),
        ensures
            r == self.data().len() - self.at(),
    {
        self.data.len() - self.pos
    }

    pub fn is_empty(&self) -> (r: bool)
        requires
            self.wf(),
        ensures
            r == (self.at() == self.data().len()),
    {
        self.remaining() == 0
    }

    /// Errors unless the whole buffer was consumed.
    pub fn expect_fully_read(&self) -> (r: Result<(), Error>)
        requires
            self.wf(),
        ensures
            r == (if self.at() == self.data().len() {
                Ok::<(), Error>(())
            } else {
                Err(Error::Trailing((self.data().len() - self.at()) as usize))
            }),
    {
        if self.remaining() == 0 {
            Ok(())
        } else {
            Err(Error::Trailing(self.remaining()))
        }
    }

    /// The next `n` bytes.
    pub fn take(&mut self, n: usize) -> (r: Result<&'a [u8], Error>)
        requires
            old(self).wf(),
        ensures
            final(self).wf(),
            final(self).data() == old(self).data(),
            (bytes_of(r), final(self).at()) == wire::take(old(self).data(), old(self).at(), n as int),
    {
        if n > self.data.len() - self.pos {
            return Err(Error::Eof);
        }
        let end: usize = self.pos + n;
        let slice = slice_subrange(self.data, self.pos, end);
        self.pos = end;
        Ok(slice)
    }

    /// The rest of the buffer, consuming it.
    pub fn rest(&mut self) -> (r: &'a [u8])
        requires
            old(self).wf(),
        ensures
            r@ == old(self).data().skip(old(self).at()),
            final(self).moved(old(self), old(self).data().len() as int),
    {
        let slice = slice_subrange(self.data, self.pos, self.data.len());
        self.pos = self.data.len();
        slice
    }

    pub fn u8(&mut self) -> (r: Result<u8, Error>)
        requires
            old(self).wf(),
        ensures
            final(self).wf(),
            final(self).data() == old(self).data(),
            (r, final(self).at()) == wire::read_u8(old(self).data(), old(self).at()),
    {
        if self.pos >= self.data.len() {
            return Err(Error::Eof);
        }
        let b: u8 = self.data[self.pos];
        self.pos += 1;
        Ok(b)
    }

    pub fn i8(&mut self) -> (r: Result<i8, Error>)
        requires
            old(self).wf(),
        ensures
            final(self).wf(),
            final(self).data() == old(self).data(),
            (r, final(self).at()) == wire::read_i8(old(self).data(), old(self).at()),
    {
        let b: u8 = self.u8()?;
        if b < 0x80 {
            Ok(b as i8)
        } else {
            Ok((b as i16 - 0x100) as i8)
        }
    }

    pub fn bool(&mut self) -> (r: Result<bool, Error>)
        requires
            old(self).wf(),
        ensures
            final(self).wf(),
            final(self).data() == old(self).data(),
            (r, final(self).at()) == wire::read_bool(old(self).data(), old(self).at()),
    {
        let b: u8 = self.u8()?;
        Ok(b != 0)
    }

    /// A big-endian number of at most eight bytes.
    fn be(&mut self, len: usize) -> (r: Result<u64, Error>)
        requires
            old(self).wf(),
            len <= 8,
        ensures
            final(self).wf(),
            final(self).data() == old(self).data(),
            match (r, wire::read_be(old(self).data(), old(self).at(), len as int)) {
                (Ok(n), (Ok(m), q)) => n == m && n < wire::pow256(len as nat) && final(self).at() == q,
                (Err(e), (Err(f), q)) => e == f && final(self).at() == q,
                _ => false,
            },
    {
        let bytes = self.take(len)?;
        let mut n: u64 = 0;
        let mut i: usize = 0;
        proof {
            reveal_with_fuel(wire::pow256, 9);
            assert(bytes@.take(0) =~= Seq::<u8>::empty());
        }
        while i < len
            invariant
                i <= len <= 8,
                bytes@.len() == len,
                n == wire::be(bytes@.take(i as int)),
                n < wire::pow256(i as nat),
            decreases len - i,
        {
            proof {
                reveal_with_fuel(wire::pow256, 9);
                assert(bytes@.take(i + 1).drop_last() =~= bytes@.take(i as int));
            }
            n = n * 256 + bytes[i] as u64;
            i += 1;
        }
        assert(bytes@.take(len as int) =~= bytes@);
        Ok(n)
    }

    pub fn i16(&mut self) -> (r: Result<i16, Error>)
        requires
            old(self).wf(),
        ensures
            final(self).wf(),
            final(self).data() == old(self).data(),
            (r, final(self).at()) == wire::read_i16(old(self).data(), old(self).at()),
    {
        proof {
            reveal_with_fuel(wire::pow256, 3);
        }
        let n: u64 = self.be(2)?;
        if n < 0x8000 {
            Ok(n as i16)
        } else {
            Ok((n as i64 - 0x1_0000) as i16)
        }
    }

    pub fn u16(&mut self) -> (r: Result<u16, Error>)
        requires
            old(self).wf(),
        ensures
            final(self).wf(),
            final(self).data() == old(self).data(),
            (r, final(self).at()) == wire::read_u16(old(self).data(), old(self).at()),
    {
        proof {
            reveal_with_fuel(wire::pow256, 3);
        }
        let n: u64 = self.be(2)?;
        Ok(n as u16)
    }

    fn u32(&mut self) -> (r: Result<u32, Error>)
        requires
            old(self).wf(),
        ensures
            final(self).wf(),
            final(self).data() == old(self).data(),
            (r, final(self).at()) == wire::read_u32(old(self).data(), old(self).at()),
    {
        proof {
            reveal_with_fuel(wire::pow256, 5);
        }
        let n: u64 = self.be(4)?;
        Ok(n as u32)
    }

    pub fn i32(&mut self) -> (r: Result<i32, Error>)
        requires
            old(self).wf(),
        ensures
            final(self).wf(),
            final(self).data() == old(self).data(),
            (r, final(self).at()) == wire::read_i32(old(self).data(), old(self).at()),
    {
        proof {
            reveal_with_fuel(wire::pow256, 5);
        }
        let n: u64 = self.be(4)?;
        if n < 0x8000_0000 {
            Ok(n as i32)
        } else {
            Ok((n as i64 - 0x1_0000_0000) as i32)
        }
    }

    fn u64(&mut self) -> (r: Result<u64, Error>)
        requires
            old(self).wf(),
        ensures
            final(self).wf(),
            final(self).data() == old(self).data(),
            (r, final(self).at()) == wire::read_u64(old(self).data(), old(self).at()),
    {
        self.be(8)
    }

    pub fn i64(&mut self) -> (r: Result<i64, Error>)
        requires
            old(self).wf(),
        ensures
            final(self).wf(),
            final(self).data() == old(self).data(),
            (r, final(self).at()) == wire::read_i64(old(self).data(), old(self).at()),
    {
        let n: u64 = self.be(8)?;
        if n < 0x8000_0000_0000_0000 {
            Ok(n as i64)
        } else {
            Ok((n as i128 - 0x1_0000_0000_0000_0000) as i64)
        }
    }

    /// A single-precision float, as its bit pattern.
    pub fn f32_bits(&mut self) -> (r: Result<u32, Error>)
        requires
            old(self).wf(),
        ensures
            final(self).wf(),
            final(self).data() == old(self).data(),
            (r, final(self).at()) == wire::read_u32(old(self).data(), old(self).at()),
    {
        self.u32()
    }

    /// A double-precision float, as its bit pattern.
    pub fn f64_bits(&mut self) -> (r: Result<u64, Error>)
        requires
            old(self).wf(),
        ensures
            final(self).wf(),
            final(self).data() == old(self).data(),
            (r, final(self).at()) == wire::read_u64(old(self).data(), old(self).at()),
    {
        self.u64()
    }

    /// Groups of seven bits, of which at most `max` are allowed.
    fn groups(&mut self, max: u32) -> (r: Result<u128, Error>)
        requires
            old(self).wf(),
            max <= 10,
        ensures
            final(self).wf(),
            final(self).data() == old(self).data(),
            match (r, wire::read_groups(old(self).data(), old(self).at(), max as nat)) {
                (Ok(n), (Ok(m), q)) => n == m && n < wire::pow128(max as nat) && final(self).at() == q,
                (Err(e), (Err(f), q)) => e == f && final(self).at() == q,
                _ => false,
            },
        decreases max,
    {
        if max == 0 {
            return Err(Error::VarTooLong);
        }
        proof {
            reveal_with_fuel(wire::pow128, 11);
        }
        let b: u8 = self.u8()?;
        if b < 128 {
            return Ok(b as u128);
        }
        let n: u128 = self.groups(max - 1)?;
        Ok((b - 128) as u128 + 128 * n)
    }

    pub fn var_i32(&mut self) -> (r: Result<i32, Error>)
        requires
            old(self).wf(),
        ensures
            final(self).wf(),
            final(self).data() == old(self).data(),
            (r, final(self).at()) == wire::read_var_i32(old(self).data(), old(self).at()),
    {
        let n: u128 = self.groups(5)?;
        let low: u128 = n % 0x1_0000_0000;
        if low < 0x8000_0000 {
            Ok(low as i32)
        } else {
            Ok((low as i128 - 0x1_0000_0000) as i32)
        }
    }

    /// A VarInt used as a count or length. Negative values are rejected rather
    /// than wrapping into a huge `usize`.
    pub fn var_len(&mut self, what: &'static str, max: usize) -> (r: Result<usize, Error>)
        requires
            old(self).wf(),
        ensures
            final(self).wf(),
            final(self).data() == old(self).data(),
            (r, final(self).at()) == wire::read_var_len(old(self).data(), old(self).at(), what, max),
    {
        let raw: i32 = self.var_i32()?;
        if raw < 0 {
            return Err(Error::TooLarge { what, len: 0, max });
        }
        let len: usize = raw as usize;
        if len > max {
            return Err(Error::TooLarge { what, len, max });
        }
        Ok(len)
    }

    pub fn var_i64(&mut self) -> (r: Result<i64, Error>)
        requires
            old(self).wf(),
        ensures
            final(self).wf(),
            final(self).data() == old(self).data(),
            (r, final(self).at()) == wire::read_var_i64(old(self).data(), old(self).at()),
    {
        let n: u128 = self.groups(10)?;
        let low: u128 = n % 0x1_0000_0000_0000_0000;
        if low < 0x8000_0000_0000_0000 {
            Ok(low as i64)
        } else {
            Ok((low as i128 - 0x1_0000_0000_0000_0000) as i64)
        }
    }

    pub fn string(&mut self) -> (r: Result<&'a str, Error>)
        requires
            old(self).wf(),
        ensures
            final(self).wf(),
            final(self).data() == old(self).data(),
            (chars_of(r), final(self).at()) == wire::read_string(old(self).data(), old(self).at()),
    {
        let len: usize = self.var_len("string", wire::MAX_STRING_BYTES)?;
        let bytes = self.take(len)?;
        match core::str::from_utf8(bytes) {
            Ok(s) => {
                proof {
                    encode_utf8_decode_utf8(s@);
                }
                Ok(s)
            },
            Err(_) => Err(Error::BadUtf8),
        }
    }

    /// A length-prefixed byte array.
    pub fn byte_array(&mut self, max: usize) -> (r: Result<&'a [u8], Error>)
        requires
            old(self).wf(),
        ensures
            final(self).wf(),
            final(self).data() == old(self).data(),
            (bytes_of(r), final(self).at()) == wire::read_byte_array(old(self).data(), old(self).at(), max),
    {
        let len: usize = self.var_len("byte array", max)?;
        self.take(len)
    }

    pub fn uuid(&mut self) -> (r: Result<(u64, u64), Error>)
        requires
            old(self).wf(),
        ensures
            final(self).wf(),
            final(self).data() == old(self).data(),
            (r, final(self).at()) == wire::read_uuid(old(self).data(), old(self).at()),
    {
        let high: u64 = self.u64()?;
        let low: u64 = self.u64()?;
        Ok((high, low))
    }

    pub fn block_pos(&mut self) -> (r: Result<(i32, i32, i32), Error>)
        requires
            old(self).wf(),
        ensures
            final(self).wf(),
            final(self).data() == old(self).data(),
            (r, final(self).at()) == wire::read_block_pos(old(self).data(), old(self).at()),
    {
        let v: i64 = self.i64()?;
        Ok(unpack_block_pos(v))
    }

    /// Reads the next byte without consuming it.
    pub fn peek_u8(&self) -> (r: Result<u8, Error>)
        requires
            self.wf(),
        ensures
            r == wire::read_u8(self.data(), self.at()).0,
    {
        if self.pos >= self.data.len() {
            return Err(Error::Eof);
        }
        Ok(self.data[self.pos])
    }

    pub fn position(&self) -> (r: usize)
        ensures
            r == self.at(),
    {
        self.pos
    }

    /// Everything between `start` and the current position.
    pub fn since(&self, start: usize) -> (r: Result<&'a [u8], Error>)
        requires
            self.wf(),
        ensures
            bytes_of(r) == (if start <= self.at() {
                Ok(self.data().subrange(start as int, self.at()))
            } else {
                Err(Error::Eof)
            }),
    {
        if start > self.pos {
            return Err(Error::Eof);
        }
        Ok(slice_subrange(self.data, start, self.pos))
    }
}

/// Two's complement reading of the low `bits` of a component.
fn component(n: u64, modulus: u64) -> (r: i32)
    requires
        n < modulus <= 0x400_0000,
    ensures
        r == wire::signed(n as int, modulus as int),
{
    if n < modulus - n {
        n as i32
    } else {
        (n as i64 - modulus as i64) as i32
    }
}

/// Vanilla packs a block position into a long as 26 bits of X, 26 of Z and 12 of Y,
/// each signed. Section keys in a block buffer use the same packing.
pub fn unpack_block_pos(v: i64) -> (r: (i32, i32, i32))
    ensures
        r == wire::unpacked(v),
{
    let n: u64 = if v < 0 {
        (v as i128 + 0x1_0000_0000_0000_0000) as u64
    } else {
        v as u64
    };
    (
        component(n / 0x40_0000_0000, 0x400_0000),
        component(n % 0x1000, 0x1000),
        component((n / 0x1000) % 0x400_0000, 0x400_0000),
    )
}

/// The low 26 bits of a component.
fn low_26(v: i32) -> (r: i64)
    ensures
        r == v as int % 0x400_0000,
{
    (v as i64 + 0x1_0000_0000) % 0x400_0000
}

/// The low 12 bits of a component.
fn low_12(v: i32) -> (r: i64)
    ensures
        r == v as int % 0x1000,
{
    (v as i64 + 0x1_0000_0000) % 0x1000
}

pub fn pack_block_pos(x: i32, y: i32, z: i32) -> (r: i64)
    ensures
        r == wire::packed(x, y, z),
{
    let n: i128 = low_26(x) as i128 * 0x40_0000_0000 + low_26(z) as i128 * 0x1000 + low_12(y) as i128;
    if n < 0x8000_0000_0000_0000 {
        n as i64
    } else {
        (n - 0x1_0000_0000_0000_0000) as i64
    }
}

/// An append-only byte buffer.
pub struct Writer {
    buf: Vec<u8>,
}

impl View for Writer {
    type V = Seq<u8>;

    closed spec fn view(&self) -> Seq<u8> {
        self.buf@
    }
}

impl Default for Writer {
    fn default() -> (r: Self)
        ensures
            r@ == Seq::<u8>::empty(),
    {
        Self::new()
    }
}

impl Writer {
    pub fn new() -> (r: Self)
        ensures
            r@ == Seq::<u8>::empty(),
    {
        Self { buf: Vec::new() }
    }

    pub fn with_capacity(n: usize) -> (r: Self)
        ensures
            r@ == Seq::<u8>::empty(),
    {
        Self { buf: Vec::with_capacity(n) }
    }

    pub fn into_vec(self) -> (r: Vec<u8>)
        ensures
            r@ == self@,
    {
        self.buf
    }

    pub fn len(&self) -> (r: usize)
        ensures
            r == self@.len(),
    {
        self.buf.len()
    }

    pub fn is_empty(&self) -> (r: bool)
        ensures
            r == (self@.len() == 0),
    {
        self.buf.len() == 0
    }

    pub fn u8(&mut self, v: u8) -> (r: &mut Self)
        ensures
            r@ == old(self)@.push(v),
            *final(self) == *final(r),
    {
        self.buf.push(v);
        self
    }

    pub fn bool(&mut self, v: bool) -> (r: &mut Self)
        ensures
            r@ == old(self)@ + wire::bool_bytes(v),
            *final(self) == *final(r),
    {
        let b: u8 = if v {
            1
        } else {
            0
        };
        self.buf.push(b);
        assert(self.buf@ =~= old(self).buf@ + wire::bool_bytes(v));
        self
    }

    /// Appends the low `len` bytes of `n`, most significant first.
    fn be(&mut self, n: u64, len: usize)
        requires
            len <= 8,
        ensures
            final(self)@ == old(self)@ + wire::to_be(n as nat, len as nat),
        decreases len,
    {
        if len > 0 {
            self.be(n / 256, len - 1);
            self.buf.push((n % 256) as u8);
        }
        assert(self.buf@ =~= old(self).buf@ + wire::to_be(n as nat, len as nat));
    }

    pub fn i16(&mut self, v: i16) -> (r: &mut Self)
        ensures
            r@ == old(self)@ + wire::i16_bytes(v),
            *final(self) == *final(r),
    {
        let n: u64 = if v < 0 {
            (v as i128 + 0x1_0000) as u64
        } else {
            v as u64
        };
        self.be(n, 2);
        self
    }

    pub fn i32(&mut self, v: i32) -> (r: &mut Self)
        ensures
            r@ == old(self)@ + wire::i32_bytes(v),
            *final(self) == *final(r),
    {
        let n: u64 = if v < 0 {
            (v as i128 + 0x1_0000_0000) as u64
        } else {
            v as u64
        };
        self.be(n, 4);
        self
    }

    pub fn i64(&mut self, v: i64) -> (r: &mut Self)
        ensures
            r@ == old(self)@ + wire::i64_bytes(v),
            *final(self) == *final(r),
    {
        let n: u64 = if v < 0 {
            (v as i128 + 0x1_0000_0000_0000_0000) as u64
        } else {
            v as u64
        };
        self.be(n, 8);
        self
    }

    /// A single-precision float, given as its bit pattern.
    pub fn f32_bits(&mut self, bits: u32) -> (r: &mut Self)
        ensures
            r@ == old(self)@ + wire::to_be(bits as nat, 4),
            *final(self) == *final(r),
    {
        self.be(bits as u64, 4);
        self
    }

    /// A double-precision float, given as its bit pattern.
    pub fn f64_bits(&mut self, bits: u64) -> (r: &mut Self)
        ensures
            r@ == old(self)@ + wire::to_be(bits as nat, 8),
            *final(self) == *final(r),
    {
        self.be(bits, 8);
        self
    }

    pub fn bytes(&mut self, v: &[u8]) -> (r: &mut Self)
        ensures
            r@ == old(self)@ + v@,
            *final(self) == *final(r),
    {
        self.buf.extend_from_slice(v);
        assert(self.buf@ =~= old(self).buf@ + v@);
        self
    }

    /// Appends the groups of seven bits that spell `n`.
    fn groups(&mut self, n: u64)
        ensures
            final(self)@ == old(self)@ + wire::groups(n as nat),
    {
        let mut value: u64 = n;
        while value >= 128
            invariant
                self.buf@ + wire::groups(value as nat) =~= old(self).buf@ + wire::groups(n as nat),
            decreases value,
        {
            self.buf.push((value % 128 + 128) as u8);
            value = value / 128;
        }
        self.buf.push(value as u8);
        assert(self.buf@ =~= old(self).buf@ + wire::groups(n as nat));
    }

    pub fn var_i32(&mut self, v: i32) -> (r: &mut Self)
        ensures
            r@ == old(self)@ + wire::var_i32_bytes(v),
            *final(self) == *final(r),
    {
        let n: u64 = if v < 0 {
            (v as i128 + 0x1_0000_0000) as u64
        } else {
            v as u64
        };
        self.groups(n);
        self
    }

    pub fn var_i64(&mut self, v: i64) -> (r: &mut Self)
        ensures
            r@ == old(self)@ + wire::var_i64_bytes(v),
            *final(self) == *final(r),
    {
        let n: u64 = if v < 0 {
            (v as i128 + 0x1_0000_0000_0000_0000) as u64
        } else {
            v as u64
        };
        self.groups(n);
        self
    }

    /// Appends a length as a VarInt.
    pub(crate) fn prefix(&mut self, len: usize)
        ensures
            final(self)@ == old(self)@ + wire::len_bytes(len as nat),
    {
        self.groups(len as u64 % 0x1_0000_0000);
    }

    pub fn string(&mut self, v: &str) -> (r: &mut Self)
        ensures
            r@ == old(self)@ + wire::string_bytes(v@),
            *final(self) == *final(r),
    {
        self.byte_array(v.as_bytes())
    }

    pub fn byte_array(&mut self, v: &[u8]) -> (r: &mut Self)
        ensures
            r@ == old(self)@ + wire::sized_bytes(v@),
            *final(self) == *final(r),
    {
        self.prefix(v.len());
        self.buf.extend_from_slice(v);
        assert(self.buf@ =~= old(self).buf@ + wire::sized_bytes(v@));
        self
    }

    pub fn uuid(&mut self, high: u64, low: u64) -> (r: &mut Self)
        ensures
            r@ == old(self)@ + wire::uuid_bytes(high, low),
            *final(self) == *final(r),
    {
        self.be(high, 8);
        self.be(low, 8);
        assert(self@ =~= old(self)@ + wire::uuid_bytes(high, low));
        self
    }

    pub fn block_pos(&mut self, x: i32, y: i32, z: i32) -> (r: &mut Self)
        ensures
            r@ == old(self)@ + wire::block_pos_bytes(x, y, z),
            *final(self) == *final(r),
    {
        self.i64(pack_block_pos(x, y, z))
    }
}

/// An error tells what is wrong, and the numbers it is wrong by.
pub proof fn law_errors_tell_what_is_wrong(what: &'static str, len: usize, max: usize)
    ensures
        error_text(Error::Eof) == "unexpected end of buffer"@,
        error_text(Error::VarTooLong) == "varint too long"@,
        error_text(Error::BadUtf8) == "invalid utf-8"@,
        error_text(Error::TooLarge { what, len, max }) == what@ + " too large: "@ + text::decimal(
            len as nat,
        ) + " > "@ + text::decimal(max as nat),
        error_text(Error::Trailing(len)) == text::decimal(len as nat)
            + " trailing bytes left unread"@,
        error_text(Error::Unexpected(what)) == what@,
{
}

} // verus!
