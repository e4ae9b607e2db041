//! Laws of the wire primitives: how numbers, positions and lengths are spelled.

use vstd::prelude::*;
use vstd::utf8::*;

use crate::buf::Error;
use crate::wire;

verus! {

/// Numbers are spelled with their most significant byte first.
pub proof fn law_most_significant_byte_comes_first(a: u8, b: u8, c: u8, e: u8)
    ensures
        wire::be(seq![a]) == a,
        wire::be(seq![a, b]) == 0x100 * a + b,
        wire::be(seq![a, b, c, e]) == 0x100_0000 * a + 0x1_0000 * b + 0x100 * c + e,
{
    reveal_with_fuel(wire::be, 5);
    assert(seq![a].drop_last() =~= Seq::empty());
    assert(seq![a, b].drop_last() =~= seq![a]);
    assert(seq![a, b, c].drop_last() =~= seq![a, b]);
    assert(seq![a, b, c, e].drop_last() =~= seq![a, b, c]);
}

/// What stands in front of four bytes counts 4,294,967,296 times as much.
pub proof fn law_upper_half_comes_first(upper: Seq<u8>, lower: Seq<u8>)
    requires
        lower.len() == 4,
    ensures
        wire::be(upper + lower) == 0x1_0000_0000 * wire::be(upper) + wire::be(lower),
{
    reveal_with_fuel(wire::be, 5);
    let l3 = lower.drop_last();
    let l2 = l3.drop_last();
    let l1 = l2.drop_last();
    let l0 = l1.drop_last();
    assert((upper + lower).drop_last() =~= upper + l3);
    assert((upper + l3).drop_last() =~= upper + l2);
    assert((upper + l2).drop_last() =~= upper + l1);
    assert((upper + l1).drop_last() =~= upper + l0);
    assert(upper + l0 =~= upper);
}

/// A signed number below zero is spelled as what it is short of the next power of two above its
/// range; any other as itself.
pub proof fn law_signed_numbers_are_spelled(v: i16, w: i32, x: i64)
    ensures
        wire::i16_bytes(v) == wire::to_be((if v < 0 { v + 0x1_0000 } else { v as int }) as nat, 2),
        wire::i32_bytes(w) == wire::to_be(
            (if w < 0 { w + 0x1_0000_0000 } else { w as int }) as nat,
            4,
        ),
        wire::i64_bytes(x) == wire::to_be(
            (if x < 0 { x + 0x1_0000_0000_0000_0000 } else { x as int }) as nat,
            8,
        ),
{
}

/// A byte is read as itself, as a flag that is set unless it is zero, and as a number from -128
/// to 127.
pub proof fn law_bytes_are_read(d: Seq<u8>, p: int)
    requires
        0 <= p < d.len(),
    ensures
        wire::read_u8(d, p) == (Ok::<u8, Error>(d[p]), p + 1),
        wire::read_bool(d, p) == (Ok::<bool, Error>(d[p] != 0), p + 1),
        wire::read_i8(d, p) == (
            Ok::<i8, Error>((if d[p] < 128 { d[p] as int } else { d[p] - 256 }) as i8),
            p + 1,
        ),
        wire::bool_bytes(true) == seq![1u8],
        wire::bool_bytes(false) == seq![0u8],
{
}

/// Nothing is read past the end of a buffer: the read fails and stays where it was.
pub proof fn law_nothing_is_read_past_the_end(d: Seq<u8>, p: int)
    requires
        0 <= p <= d.len(),
    ensures
        p + 1 > d.len() ==> wire::read_u8(d, p) == (Err::<u8, Error>(Error::Eof), p),
        p + 2 > d.len() ==> wire::read_u16(d, p) == (Err::<u16, Error>(Error::Eof), p),
        p + 2 > d.len() ==> wire::read_i16(d, p) == (Err::<i16, Error>(Error::Eof), p),
        p + 4 > d.len() ==> wire::read_u32(d, p) == (Err::<u32, Error>(Error::Eof), p),
        p + 4 > d.len() ==> wire::read_i32(d, p) == (Err::<i32, Error>(Error::Eof), p),
        p + 8 > d.len() ==> wire::read_u64(d, p) == (Err::<u64, Error>(Error::Eof), p),
        p + 8 > d.len() ==> wire::read_i64(d, p) == (Err::<i64, Error>(Error::Eof), p),
        p + 8 > d.len() ==> wire::read_block_pos(d, p) == (
            Err::<(i32, i32, i32), Error>(Error::Eof),
            p,
        ),
        p + 16 > d.len() ==> wire::read_uuid(d, p).0 == Err::<(u64, u64), Error>(Error::Eof),
{
}

/// A variable-length number is spelled in groups of seven bits, the lowest first, each but the
/// last with its highest bit set. Five groups are the most for 32 bits, and ten for 64.
pub proof fn law_groups_are_spelled(d: Seq<u8>, p: int)
    requires
        0 <= p < d.len(),
    ensures
        d[p] < 128 ==> wire::read_var_i32(d, p) == (Ok::<i32, Error>(d[p] as i32), p + 1),
        p + 1 < d.len() && d[p] >= 128 && d[p + 1] < 128 ==> wire::read_var_i32(d, p) == (
            Ok::<i32, Error>((d[p] - 128 + 128 * d[p + 1]) as i32),
            p + 2,
        ),
        p + 5 <= d.len() && (forall|i: int| p <= i < p + 5 ==> #[trigger] d[i] >= 128)
            ==> wire::read_var_i32(d, p) == (Err::<i32, Error>(Error::VarTooLong), p + 5),
        p + 10 <= d.len() && (forall|i: int| p <= i < p + 10 ==> #[trigger] d[i] >= 128)
            ==> wire::read_var_i64(d, p) == (Err::<i64, Error>(Error::VarTooLong), p + 10),
        (forall|i: int| p <= i < d.len() ==> #[trigger] d[i] >= 128) && d.len() < p + 5
            ==> wire::read_var_i32(d, p) == (Err::<i32, Error>(Error::Eof), d.len() as int),
{
    reveal_with_fuel(wire::read_groups, 3);
    if p + 5 <= d.len() && (forall|i: int| p <= i < p + 5 ==> #[trigger] d[i] >= 128) {
        lemma_too_many_groups(d, p, 5);
    }
    if p + 10 <= d.len() && (forall|i: int| p <= i < p + 10 ==> #[trigger] d[i] >= 128) {
        lemma_too_many_groups(d, p, 10);
    }
    if (forall|i: int| p <= i < d.len() ==> #[trigger] d[i] >= 128) && d.len() < p + 5 {
        lemma_cut_groups(d, p, 5);
    }
}

proof fn lemma_too_many_groups(d: Seq<u8>, p: int, max: nat)
    requires
        0 <= p,
        p + max <= d.len(),
        forall|i: int| p <= i < p + max ==> #[trigger] d[i] >= 128,
    ensures
        wire::read_groups(d, p, max) == (Err::<nat, Error>(Error::VarTooLong), p + max),
    decreases max,
{
    if max > 0 {
        assert(d[p] >= 128);
        lemma_too_many_groups(d, p + 1, (max - 1) as nat);
    }
}

proof fn lemma_cut_groups(d: Seq<u8>, p: int, max: nat)
    requires
        0 <= p <= d.len() < p + max,
        forall|i: int| p <= i < d.len() ==> #[trigger] d[i] >= 128,
    ensures
        wire::read_groups(d, p, max) == (Err::<nat, Error>(Error::Eof), d.len() as int),
    decreases max,
{
    if p < d.len() {
        assert(d[p] >= 128);
        lemma_cut_groups(d, p + 1, (max - 1) as nat);
    }
}

/// A number is spelled in as few groups as it takes.
pub proof fn law_groups_are_as_few_as_can_be(n: nat)
    ensures
        ({
            let s = wire::groups(n);
            &&& s.len() >= 1
            &&& s.last() < 128
            &&& forall|i: int| 0 <= i < s.len() - 1 ==> #[trigger] s[i] >= 128
            &&& s.len() > 1 ==> s.last() > 0
            &&& n < 128 <==> s.len() == 1
        }),
    decreases n,
{
    if n >= 128 {
        let s = wire::groups(n);
        let rest = wire::groups(n / 128);
        law_groups_are_as_few_as_can_be(n / 128);
        assert(s.last() == rest.last());
        assert forall|i: int| 0 <= i < s.len() - 1 implies #[trigger] s[i] >= 128 by {
            if i > 0 {
                assert(s[i] == rest[i - 1]);
            }
        }
        if rest.len() == 1 {
            assert(rest[0] == n / 128);
        }
    }
}

/// A block position is packed as 26 bits of X above 26 bits of Z above 12 bits of Y.
pub proof fn law_positions_are_packed(x: i32, y: i32, z: i32)
    requires
        -0x200_0000 <= x < 0x200_0000,
        -0x800 <= y < 0x800,
        -0x200_0000 <= z < 0x200_0000,
    ensures
        ({
            let low_z = if z < 0 {
                z + 0x400_0000
            } else {
                z as int
            };
            let low_y = if y < 0 {
                y + 0x1000
            } else {
                y as int
            };
            wire::packed(x, y, z) == x * 0x40_0000_0000 + low_z * 0x1000 + low_y
        }),
{
}

/// The first eight bytes of a UUID are its upper half.
pub proof fn law_uuids_are_laid_out(high: u64, low: u64)
    ensures
        wire::uuid_bytes(high, low) == wire::to_be(high as nat, 8) + wire::to_be(low as nat, 8),
{
}

/// A length may not be below zero nor above its limit.
pub proof fn law_lengths_are_limited(d: Seq<u8>, p: int, n: i32, what: &'static str, max: usize)
    requires
        wire::stands(d, p, wire::var_i32_bytes(n)),
    ensures
        ({
            let r = wire::read_var_len(d, p, what, max).0;
            &&& n < 0 ==> r == Err::<usize, Error>(Error::TooLarge { what, len: 0, max })
            &&& n > max ==> r == Err::<usize, Error>(
                Error::TooLarge { what, len: n as usize, max },
            )
            &&& 0 <= n <= max ==> r == Ok::<usize, Error>(n as usize)
        }),
{
    wire::law_var_i32_round_trip(d, p, n);
}

/// A text of more than 98,301 bytes is refused, and so is one that is no UTF-8.
pub proof fn law_texts_are_limited(d: Seq<u8>, p: int, n: i32, s: Seq<u8>)
    ensures
        wire::stands(d, p, wire::var_i32_bytes(n)) && n > 98_301 ==> wire::read_string(d, p).0
            == Err::<Seq<char>, Error>(
            Error::TooLarge { what: "string", len: n as usize, max: 98_301 },
        ),
        wire::stands(d, p, wire::sized_bytes(s)) && s.len() <= 98_301 ==> wire::read_string(d, p)
            == (
            if valid_utf8(s) {
                Ok::<Seq<char>, Error>(decode_utf8(s))
            } else {
                Err(Error::BadUtf8)
            },
            p + wire::sized_bytes(s).len(),
        ),
{
    if wire::stands(d, p, wire::var_i32_bytes(n)) && n > 98_301 {
        law_lengths_are_limited(d, p, n, "string", 98_301);
    }
    if wire::stands(d, p, wire::sized_bytes(s)) && s.len() <= 98_301 {
        wire::law_sized_round_trip(d, p, s, "string", 98_301);
    }
}

/// What a read comes to when the buffer is cut at `n`: the same if it ends there or before, and
/// the end of the buffer if it does not.
pub open spec fn cut_alike<T>(
    whole: (Result<T, Error>, int),
    cut: (Result<T, Error>, int),
    n: int,
) -> bool {
    whole.0 is Ok ==> {
        &&& whole.1 <= n ==> cut == whole
        &&& whole.1 > n ==> cut.0 == Err::<T, Error>(Error::Eof)
    }
}

/// A number of fixed width that is cut short is not read, and one that is not is read as before.
pub proof fn law_cut_numbers(d: Seq<u8>, p: int, n: int)
    requires
        0 <= p <= n <= d.len(),
    ensures
        cut_alike(wire::read_u8(d, p), wire::read_u8(d.take(n), p), n),
        cut_alike(wire::read_bool(d, p), wire::read_bool(d.take(n), p), n),
        cut_alike(wire::read_u16(d, p), wire::read_u16(d.take(n), p), n),
        cut_alike(wire::read_u32(d, p), wire::read_u32(d.take(n), p), n),
        cut_alike(wire::read_i32(d, p), wire::read_i32(d.take(n), p), n),
        cut_alike(wire::read_i64(d, p), wire::read_i64(d.take(n), p), n),
        cut_alike(wire::read_u64(d, p), wire::read_u64(d.take(n), p), n),
        cut_alike(wire::read_uuid(d, p), wire::read_uuid(d.take(n), p), n),
        cut_alike(wire::read_block_pos(d, p), wire::read_block_pos(d.take(n), p), n),
{
    law_cut_bytes(d, p, 2, n);
    law_cut_bytes(d, p, 4, n);
    law_cut_bytes(d, p, 8, n);
    if p + 8 <= n {
        law_cut_bytes(d, p + 8, 8, n);
    }
}

/// Bytes that are cut short are not read, and those that are not are read as before.
pub proof fn law_cut_bytes(d: Seq<u8>, p: int, len: int, n: int)
    requires
        0 <= p <= n <= d.len(),
        0 <= len,
    ensures
        cut_alike(wire::take(d, p, len), wire::take(d.take(n), p, len), n),
{
    if p + len <= n {
        assert(d.take(n).subrange(p, p + len) =~= d.subrange(p, p + len));
    }
}

proof fn lemma_cut_groups_alike(d: Seq<u8>, p: int, max: nat, n: int)
    requires
        0 <= p <= n <= d.len(),
    ensures
        cut_alike(wire::read_groups(d, p, max), wire::read_groups(d.take(n), p, max), n),
        wire::read_groups(d, p, max).1 >= p,
    decreases max,
{
    if max > 0 && p < n && d[p] >= 128 {
        lemma_cut_groups_alike(d, p + 1, (max - 1) as nat, n);
    } else if max > 0 && p < d.len() && d[p] >= 128 {
        lemma_groups_forward(d, p + 1, (max - 1) as nat);
    }
}

pub proof fn lemma_groups_forward(d: Seq<u8>, p: int, max: nat)
    ensures
        wire::read_groups(d, p, max).1 >= p,
    decreases max,
{
    if max > 0 {
        lemma_groups_forward(d, p + 1, (max - 1) as nat);
    }
}

/// A variable-length number, a length, a text or bytes with their length in front that are cut
/// short are not read, and those that are not are read as before.
pub proof fn law_cut_fields(d: Seq<u8>, p: int, what: &'static str, max: usize, n: int)
    requires
        0 <= p <= n <= d.len(),
    ensures
        cut_alike(wire::read_var_i32(d, p), wire::read_var_i32(d.take(n), p), n),
        cut_alike(
            wire::read_var_len(d, p, what, max),
            wire::read_var_len(d.take(n), p, what, max),
            n,
        ),
        cut_alike(wire::read_sized(d, p, what, max), wire::read_sized(d.take(n), p, what, max), n),
        cut_alike(wire::read_string(d, p), wire::read_string(d.take(n), p), n),
{
    lemma_cut_groups_alike(d, p, 5, n);
    let (len, q) = wire::read_var_len(d, p, what, max);
    if len is Ok && q <= n {
        law_cut_bytes(d, q, len->Ok_0 as int, n);
    }
    let (len, q) = wire::read_var_len(d, p, "string", wire::MAX_STRING_BYTES);
    if len is Ok && q <= n {
        law_cut_bytes(d, q, len->Ok_0 as int, n);
    }
}

/// A position is spelled as its packed number, a number of variable length in its groups, and a
/// text and bytes behind their length.
pub proof fn law_fields_are_laid_out(
    pos: (i32, i32, i32),
    v: i32,
    w: i64,
    s: Seq<u8>,
    text: Seq<char>,
)
    requires
        s.len() < 0x1_0000_0000,
    ensures
        wire::block_pos_bytes(pos.0, pos.1, pos.2) == wire::i64_bytes(
            wire::packed(pos.0, pos.1, pos.2),
        ),
        wire::var_i32_bytes(v) == wire::groups(
            (if v < 0 { v + 0x1_0000_0000 } else { v as int }) as nat,
        ),
        wire::var_i64_bytes(w) == wire::groups(
            (if w < 0 { w + 0x1_0000_0000_0000_0000 } else { w as int }) as nat,
        ),
        wire::len_bytes(s.len()) == wire::groups(s.len()),
        wire::sized_bytes(s) == wire::groups(s.len()) + s,
        wire::string_bytes(text) == wire::sized_bytes(encode_utf8(text)),
{
}

} // verus!
