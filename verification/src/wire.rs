//! What the wire primitives mean, as functions on byte sequences.
//!
//! A read is described by the buffer `d` and the position `p` it starts at. It gives
//! the value or the error, paired with the position it leaves behind.

use vstd::prelude::*;
use vstd::utf8::*;

use crate::buf::Error;

verus! {

/// 256 to the power `n`.
pub open spec fn pow256(n: nat) -> nat
    decreases n,
{
    if n == 0 {
        1
    } else {
        256 * pow256((n - 1) as nat)
    }
}

/// 128 to the power `n`.
pub open spec fn pow128(n: nat) -> nat
    decreases n,
{
    if n == 0 {
        1
    } else {
        128 * pow128((n - 1) as nat)
    }
}

/// The number a byte string spells, most significant byte first.
pub open spec fn be(s: Seq<u8>) -> nat
    decreases s.len(),
{
    if s.len() == 0 {
        0
    } else {
        256 * be(s.drop_last()) + s.last() as nat
    }
}

/// The low `len` bytes of `n`, most significant byte first.
pub open spec fn to_be(n: nat, len: nat) -> Seq<u8>
    decreases len,
{
    if len == 0 {
        Seq::empty()
    } else {
        to_be(n / 256, (len - 1) as nat).push((n % 256) as u8)
    }
}

/// The low `len` bytes of `n`, least significant byte first.
pub open spec fn to_le(n: nat, len: nat) -> Seq<u8>
    decreases len,
{
    if len == 0 {
        Seq::empty()
    } else {
        seq![(n % 256) as u8] + to_le(n / 256, (len - 1) as nat)
    }
}

/// Reads `n`, a number below `modulus`, as a two's complement number.
pub open spec fn signed(n: int, modulus: int) -> int {
    if 2 * n < modulus {
        n
    } else {
        n - modulus
    }
}

/// The bits of a two's complement number, as a number below `modulus`.
pub open spec fn unsigned(v: int, modulus: int) -> int {
    if v < 0 {
        v + modulus
    } else {
        v
    }
}

pub open spec fn take(d: Seq<u8>, p: int, n: int) -> (Result<Seq<u8>, Error>, int) {
    if p + n <= d.len() {
        (Ok(d.subrange(p, p + n)), p + n)
    } else {
        (Err(Error::Eof), p)
    }
}

pub open spec fn read_u8(d: Seq<u8>, p: int) -> (Result<u8, Error>, int) {
    if p < d.len() {
        (Ok(d[p]), p + 1)
    } else {
        (Err(Error::Eof), p)
    }
}

pub open spec fn read_bool(d: Seq<u8>, p: int) -> (Result<bool, Error>, int) {
    match read_u8(d, p) {
        (Ok(b), q) => (Ok(b != 0), q),
        (Err(e), q) => (Err(e), q),
    }
}

pub open spec fn read_i8(d: Seq<u8>, p: int) -> (Result<i8, Error>, int) {
    match read_u8(d, p) {
        (Ok(b), q) => (Ok(signed(b as int, 0x100) as i8), q),
        (Err(e), q) => (Err(e), q),
    }
}

/// A big-endian number of `len` bytes.
pub open spec fn read_be(d: Seq<u8>, p: int, len: int) -> (Result<nat, Error>, int) {
    match take(d, p, len) {
        (Ok(s), q) => (Ok(be(s)), q),
        (Err(e), q) => (Err(e), q),
    }
}

pub open spec fn read_u16(d: Seq<u8>, p: int) -> (Result<u16, Error>, int) {
    match read_be(d, p, 2) {
        (Ok(n), q) => (Ok(n as u16), q),
        (Err(e), q) => (Err(e), q),
    }
}

pub open spec fn read_i16(d: Seq<u8>, p: int) -> (Result<i16, Error>, int) {
    match read_be(d, p, 2) {
        (Ok(n), q) => (Ok(signed(n as int, 0x1_0000) as i16), q),
        (Err(e), q) => (Err(e), q),
    }
}

pub open spec fn read_u32(d: Seq<u8>, p: int) -> (Result<u32, Error>, int) {
    match read_be(d, p, 4) {
        (Ok(n), q) => (Ok(n as u32), q),
        (Err(e), q) => (Err(e), q),
    }
}

pub open spec fn read_i32(d: Seq<u8>, p: int) -> (Result<i32, Error>, int) {
    match read_be(d, p, 4) {
        (Ok(n), q) => (Ok(signed(n as int, 0x1_0000_0000) as i32), q),
        (Err(e), q) => (Err(e), q),
    }
}

pub open spec fn read_u64(d: Seq<u8>, p: int) -> (Result<u64, Error>, int) {
    match read_be(d, p, 8) {
        (Ok(n), q) => (Ok(n as u64), q),
        (Err(e), q) => (Err(e), q),
    }
}

pub open spec fn read_i64(d: Seq<u8>, p: int) -> (Result<i64, Error>, int) {
    match read_be(d, p, 8) {
        (Ok(n), q) => (Ok(signed(n as int, 0x1_0000_0000_0000_0000) as i64), q),
        (Err(e), q) => (Err(e), q),
    }
}

/// Groups of seven bits, least significant group first. A set high bit says that
/// another group follows; `max` groups are allowed.
pub open spec fn read_groups(d: Seq<u8>, p: int, max: nat) -> (Result<nat, Error>, int)
    decreases max,
{
    if max == 0 {
        (Err(Error::VarTooLong), p)
    } else {
        match read_u8(d, p) {
            (Err(e), q) => (Err(e), q),
            (Ok(b), q) => if b < 128 {
                (Ok(b as nat), q)
            } else {
                match read_groups(d, q, (max - 1) as nat) {
                    (Ok(n), q2) => (Ok((b as nat - 128 + 128 * n) as nat), q2),
                    (Err(e), q2) => (Err(e), q2),
                }
            },
        }
    }
}

/// A VarInt: up to five groups, of which the low 32 bits count.
pub open spec fn read_var_i32(d: Seq<u8>, p: int) -> (Result<i32, Error>, int) {
    match read_groups(d, p, 5) {
        (Ok(n), q) => (
            Ok(signed((n % 0x1_0000_0000) as int, 0x1_0000_0000) as i32),
            q,
        ),
        (Err(e), q) => (Err(e), q),
    }
}

/// A VarLong: up to ten groups, of which the low 64 bits count.
pub open spec fn read_var_i64(d: Seq<u8>, p: int) -> (Result<i64, Error>, int) {
    match read_groups(d, p, 10) {
        (Ok(n), q) => (
            Ok(signed((n % 0x1_0000_0000_0000_0000) as int, 0x1_0000_0000_0000_0000) as i64),
            q,
        ),
        (Err(e), q) => (Err(e), q),
    }
}

/// A VarInt used as a count: negative counts and counts above `max` are refused.
pub open spec fn read_var_len(d: Seq<u8>, p: int, what: &'static str, max: usize) -> (
    Result<usize, Error>,
    int,
) {
    match read_var_i32(d, p) {
        (Ok(n), q) => if n < 0 {
            (Err(Error::TooLarge { what, len: 0, max }), q)
        } else if n > max {
            (Err(Error::TooLarge { what, len: n as usize, max }), q)
        } else {
            (Ok(n as usize), q)
        },
        (Err(e), q) => (Err(e), q),
    }
}

/// A length-prefixed byte string of at most `max` bytes.
pub open spec fn read_sized(d: Seq<u8>, p: int, what: &'static str, max: usize) -> (
    Result<Seq<u8>, Error>,
    int,
) {
    match read_var_len(d, p, what, max) {
        (Ok(n), q) => take(d, q, n as int),
        (Err(e), q) => (Err(e), q),
    }
}

pub open spec fn read_byte_array(d: Seq<u8>, p: int, max: usize) -> (Result<Seq<u8>, Error>, int) {
    read_sized(d, p, "byte array", max)
}

/// The longest string field, in bytes.
pub const MAX_STRING_BYTES: usize = 98_301;

/// A length-prefixed UTF-8 string.
pub open spec fn read_string(d: Seq<u8>, p: int) -> (Result<Seq<char>, Error>, int) {
    match read_sized(d, p, "string", MAX_STRING_BYTES) {
        (Ok(s), q) => if valid_utf8(s) {
            (Ok(decode_utf8(s)), q)
        } else {
            (Err(Error::BadUtf8), q)
        },
        (Err(e), q) => (Err(e), q),
    }
}

pub open spec fn read_uuid(d: Seq<u8>, p: int) -> (Result<(u64, u64), Error>, int) {
    match read_u64(d, p) {
        (Ok(high), q) => match read_u64(d, q) {
            (Ok(low), q2) => (Ok((high, low)), q2),
            (Err(e), q2) => (Err(e), q2),
        },
        (Err(e), q) => (Err(e), q),
    }
}

/// The components of a packed block position: 26 bits of X, then 26 of Z, then 12 of
/// Y, each in two's complement.
pub open spec fn unpacked(v: i64) -> (i32, i32, i32) {
    let n = unsigned(v as int, 0x1_0000_0000_0000_0000);
    (
        signed(n / 0x40_0000_0000, 0x400_0000) as i32,
        signed(n % 0x1000, 0x1000) as i32,
        signed((n / 0x1000) % 0x400_0000, 0x400_0000) as i32,
    )
}

/// A block position packed into 64 bits; components keep their low bits only.
pub open spec fn packed(x: i32, y: i32, z: i32) -> i64 {
    signed(
        (x as int % 0x400_0000) * 0x40_0000_0000 + (z as int % 0x400_0000) * 0x1000 + (y as int
            % 0x1000),
        0x1_0000_0000_0000_0000,
    ) as i64
}

pub open spec fn read_block_pos(d: Seq<u8>, p: int) -> (Result<(i32, i32, i32), Error>, int) {
    match read_i64(d, p) {
        (Ok(v), q) => (Ok(unpacked(v)), q),
        (Err(e), q) => (Err(e), q),
    }
}

pub open spec fn bool_bytes(v: bool) -> Seq<u8> {
    seq![
        if v {
            1u8
        } else {
            0u8
        },
    ]
}

pub open spec fn i16_bytes(v: i16) -> Seq<u8> {
    to_be(unsigned(v as int, 0x1_0000) as nat, 2)
}

pub open spec fn i32_bytes(v: i32) -> Seq<u8> {
    to_be(unsigned(v as int, 0x1_0000_0000) as nat, 4)
}

pub open spec fn i64_bytes(v: i64) -> Seq<u8> {
    to_be(unsigned(v as int, 0x1_0000_0000_0000_0000) as nat, 8)
}

/// The shortest groups of seven bits that spell `n`.
pub open spec fn groups(n: nat) -> Seq<u8>
    decreases n,
{
    if n < 128 {
        seq![n as u8]
    } else {
        seq![(n % 128 + 128) as u8] + groups(n / 128)
    }
}

pub open spec fn var_i32_bytes(v: i32) -> Seq<u8> {
    groups(unsigned(v as int, 0x1_0000_0000) as nat)
}

pub open spec fn var_i64_bytes(v: i64) -> Seq<u8> {
    groups(unsigned(v as int, 0x1_0000_0000_0000_0000) as nat)
}

/// A length written as a VarInt; lengths keep their low 32 bits.
pub open spec fn len_bytes(n: nat) -> Seq<u8> {
    groups(n % 0x1_0000_0000)
}

pub open spec fn sized_bytes(s: Seq<u8>) -> Seq<u8> {
    len_bytes(s.len()) + s
}

pub open spec fn string_bytes(s: Seq<char>) -> Seq<u8> {
    sized_bytes(encode_utf8(s))
}

pub open spec fn uuid_bytes(high: u64, low: u64) -> Seq<u8> {
    to_be(high as nat, 8) + to_be(low as nat, 8)
}

pub open spec fn block_pos_bytes(x: i32, y: i32, z: i32) -> Seq<u8> {
    i64_bytes(packed(x, y, z))
}

/// The byte string `s` stands in the buffer `d` at position `p`.
pub open spec fn stands(d: Seq<u8>, p: int, s: Seq<u8>) -> bool {
    &&& 0 <= p
    &&& p + s.len() <= d.len()
    &&& d.subrange(p, p + s.len()) == s
}

/// Two byte strings that stand one after the other.
pub proof fn lemma_stands_split(d: Seq<u8>, p: int, a: Seq<u8>, b: Seq<u8>)
    ensures
        stands(d, p, a + b) <==> stands(d, p, a) && stands(d, p + a.len(), b),
{
    if stands(d, p, a + b) {
        assert(d.subrange(p, p + a.len()) =~= (a + b).subrange(0, a.len() as int));
        assert((a + b).subrange(0, a.len() as int) =~= a);
        assert(d.subrange(p + a.len(), p + a.len() + b.len()) =~= (a + b).subrange(
            a.len() as int,
            (a + b).len() as int,
        ));
        assert((a + b).subrange(a.len() as int, (a + b).len() as int) =~= b);
    }
    if stands(d, p, a) && stands(d, p + a.len(), b) {
        assert(d.subrange(p, p + (a + b).len()) =~= d.subrange(p, p + a.len()) + d.subrange(
            p + a.len(),
            p + a.len() + b.len(),
        ));
    }
}

/// A byte string stands between whatever comes before it and after it.
pub proof fn lemma_stands_between(before: Seq<u8>, s: Seq<u8>, after: Seq<u8>)
    ensures
        stands(before + s + after, before.len() as int, s),
{
    assert((before + s + after).subrange(before.len() as int, (before.len() + s.len()) as int) =~= s);
}

/// A variable-length number ends inside the buffer, behind where it starts.
pub proof fn lemma_groups_forward(d: Seq<u8>, p: int, max: nat)
    requires
        0 <= p <= d.len(),
    ensures
        read_groups(d, p, max).0 is Ok && max > 0 ==> p < read_groups(d, p, max).1 <= d.len(),
        p <= read_groups(d, p, max).1 <= d.len(),
    decreases max,
{
    if max > 0 && p < d.len() {
        lemma_groups_forward(d, p + 1, (max - 1) as nat);
    }
}

/// Whether `a` holds between `i` and `j` what `d` holds `o` bytes further on.
pub open spec fn agree(a: Seq<u8>, i: int, j: int, d: Seq<u8>, o: int) -> bool {
    &&& 0 <= i <= j <= a.len()
    &&& 0 <= i + o
    &&& j + o <= d.len()
    &&& forall|k: int| i <= k < j ==> #[trigger] a[k] == d[k + o]
}

/// A byte string agrees with the buffer it stands in.
pub proof fn lemma_stands_agree(s: Seq<u8>, d: Seq<u8>, p: int)
    requires
        stands(d, p, s),
    ensures
        agree(s, 0, s.len() as int, d, p),
{
    assert forall|k: int| 0 <= k < s.len() implies #[trigger] s[k] == d[k + p] by {
        assert(d.subrange(p, p + s.len())[k] == s[k]);
    }
}

pub proof fn lemma_same_take(a: Seq<u8>, i: int, n: int, d: Seq<u8>, o: int)
    requires
        0 <= n,
        agree(a, i, i + n, d, o),
    ensures
        take(a, i, n).0 is Ok,
        take(d, i + o, n) == (take(a, i, n).0, i + n + o),
{
    assert(d.subrange(i + o, i + o + n) =~= a.subrange(i, i + n));
}

pub proof fn lemma_same_u8(a: Seq<u8>, i: int, d: Seq<u8>, o: int)
    requires
        agree(a, i, i + 1, d, o),
    ensures
        read_u8(d, i + o) == (read_u8(a, i).0, i + 1 + o),
{
    assert(a[i] == d[i + o]);
}

pub proof fn lemma_same_groups(a: Seq<u8>, i: int, max: nat, d: Seq<u8>, o: int)
    requires
        0 <= i <= a.len(),
        read_groups(a, i, max).0 is Ok,
        agree(a, i, read_groups(a, i, max).1, d, o),
    ensures
        read_groups(d, i + o, max) == (read_groups(a, i, max).0, read_groups(a, i, max).1 + o),
    decreases max,
{
    lemma_groups_forward(a, i, max);
    assert(a[i] == d[i + o]);
    if a[i] >= 128 {
        lemma_groups_forward(a, i + 1, (max - 1) as nat);
        lemma_same_groups(a, i + 1, (max - 1) as nat, d, o);
    }
}

pub proof fn lemma_same_var_i32(a: Seq<u8>, i: int, d: Seq<u8>, o: int)
    requires
        0 <= i <= a.len(),
        read_var_i32(a, i).0 is Ok,
        agree(a, i, read_var_i32(a, i).1, d, o),
    ensures
        i < read_var_i32(a, i).1,
        read_var_i32(d, i + o) == (read_var_i32(a, i).0, read_var_i32(a, i).1 + o),
{
    lemma_groups_forward(a, i, 5);
    lemma_same_groups(a, i, 5, d, o);
}

pub proof fn lemma_same_sized(
    a: Seq<u8>,
    i: int,
    what: &'static str,
    max: usize,
    d: Seq<u8>,
    o: int,
)
    requires
        0 <= i <= a.len(),
        read_sized(a, i, what, max).0 is Ok,
        agree(a, i, read_sized(a, i, what, max).1, d, o),
    ensures
        i < read_sized(a, i, what, max).1,
        read_sized(d, i + o, what, max) == (
            read_sized(a, i, what, max).0,
            read_sized(a, i, what, max).1 + o,
        ),
{
    lemma_groups_forward(a, i, 5);
    let (n, q) = (read_var_i32(a, i).0->Ok_0, read_var_i32(a, i).1);
    lemma_same_var_i32(a, i, d, o);
    lemma_same_take(a, q, n as int, d, o);
}

/// Reading as many bytes as a byte string has gives it back.
pub proof fn law_take(d: Seq<u8>, p: int, s: Seq<u8>)
    requires
        stands(d, p, s),
    ensures
        take(d, p, s.len() as int) == (Ok::<Seq<u8>, Error>(s), p + s.len()),
{
}

/// A number that fits comes back from its big-endian bytes.
pub proof fn law_be_round_trip(n: nat, len: nat)
    requires
        n < pow256(len),
    ensures
        to_be(n, len).len() == len,
        be(to_be(n, len)) == n,
    decreases len,
{
    if len > 0 {
        law_be_round_trip(n / 256, (len - 1) as nat);
        assert(to_be(n, len).drop_last() =~= to_be(n / 256, (len - 1) as nat));
    }
}

pub proof fn lemma_to_be_len(n: nat, len: nat)
    ensures
        to_be(n, len).len() == len,
    decreases len,
{
    if len > 0 {
        lemma_to_be_len(n / 256, (len - 1) as nat);
    }
}

proof fn lemma_read_be(d: Seq<u8>, p: int, n: nat, len: nat)
    requires
        n < pow256(len),
        stands(d, p, to_be(n, len)),
    ensures
        read_be(d, p, len as int) == (Ok::<nat, Error>(n), p + len),
{
    law_be_round_trip(n, len);
    law_take(d, p, to_be(n, len));
}

/// A byte that was written is read back.
pub proof fn law_u8_round_trip(d: Seq<u8>, p: int, v: u8)
    requires
        stands(d, p, seq![v]),
    ensures
        read_u8(d, p) == (Ok::<u8, Error>(v), p + 1),
{
    assert(d.subrange(p, p + 1)[0] == d[p]);
}

/// A flag that was written is read back.
pub proof fn law_bool_round_trip(d: Seq<u8>, p: int, v: bool)
    requires
        stands(d, p, bool_bytes(v)),
    ensures
        read_bool(d, p) == (Ok::<bool, Error>(v), p + 1),
{
    assert(d.subrange(p, p + 1)[0] == d[p]);
}

/// An `i16` that was written is read back.
pub proof fn law_i16_round_trip(d: Seq<u8>, p: int, v: i16)
    requires
        stands(d, p, i16_bytes(v)),
    ensures
        read_i16(d, p) == (Ok::<i16, Error>(v), p + 2),
        i16_bytes(v).len() == 2,
{
    reveal_with_fuel(pow256, 3);
    lemma_read_be(d, p, unsigned(v as int, 0x1_0000) as nat, 2);
    lemma_to_be_len(unsigned(v as int, 0x1_0000) as nat, 2);
}

/// An `i32` that was written is read back.
pub proof fn law_i32_round_trip(d: Seq<u8>, p: int, v: i32)
    requires
        stands(d, p, i32_bytes(v)),
    ensures
        read_i32(d, p) == (Ok::<i32, Error>(v), p + 4),
        i32_bytes(v).len() == 4,
{
    reveal_with_fuel(pow256, 5);
    lemma_read_be(d, p, unsigned(v as int, 0x1_0000_0000) as nat, 4);
    lemma_to_be_len(unsigned(v as int, 0x1_0000_0000) as nat, 4);
}

/// An `i64` that was written is read back.
pub proof fn law_i64_round_trip(d: Seq<u8>, p: int, v: i64)
    requires
        stands(d, p, i64_bytes(v)),
    ensures
        read_i64(d, p) == (Ok::<i64, Error>(v), p + 8),
        i64_bytes(v).len() == 8,
{
    reveal_with_fuel(pow256, 9);
    lemma_read_be(d, p, unsigned(v as int, 0x1_0000_0000_0000_0000) as nat, 8);
    lemma_to_be_len(unsigned(v as int, 0x1_0000_0000_0000_0000) as nat, 8);
}

/// The bit pattern of a single-precision float that was written is read back.
pub proof fn law_u32_round_trip(d: Seq<u8>, p: int, v: u32)
    requires
        stands(d, p, to_be(v as nat, 4)),
    ensures
        read_u32(d, p) == (Ok::<u32, Error>(v), p + 4),
{
    reveal_with_fuel(pow256, 5);
    lemma_read_be(d, p, v as nat, 4);
}

/// The bit pattern of a double-precision float that was written is read back.
pub proof fn law_u64_round_trip(d: Seq<u8>, p: int, v: u64)
    requires
        stands(d, p, to_be(v as nat, 8)),
    ensures
        read_u64(d, p) == (Ok::<u64, Error>(v), p + 8),
{
    reveal_with_fuel(pow256, 9);
    lemma_read_be(d, p, v as nat, 8);
}

/// A number comes back from its groups of seven bits, wherever they stand.
pub proof fn law_groups_round_trip(d: Seq<u8>, p: int, n: nat, max: nat)
    requires
        stands(d, p, groups(n)),
        0 < max,
        n < pow128(max),
    ensures
        read_groups(d, p, max) == (Ok::<nat, Error>(n), p + groups(n).len()),
    decreases max,
{
    assert(d.subrange(p, p + groups(n).len())[0] == d[p]);
    if n >= 128 {
        reveal_with_fuel(pow128, 2);
        lemma_stands_split(d, p, seq![(n % 128 + 128) as u8], groups(n / 128));
        law_groups_round_trip(d, p + 1, n / 128, (max - 1) as nat);
    }
}

/// Every VarInt that was written is read back.
pub proof fn law_var_i32_round_trip(d: Seq<u8>, p: int, v: i32)
    requires
        stands(d, p, var_i32_bytes(v)),
    ensures
        read_var_i32(d, p) == (Ok::<i32, Error>(v), p + var_i32_bytes(v).len()),
{
    reveal_with_fuel(pow128, 6);
    law_groups_round_trip(d, p, unsigned(v as int, 0x1_0000_0000) as nat, 5);
}

/// Every VarLong that was written is read back.
pub proof fn law_var_i64_round_trip(d: Seq<u8>, p: int, v: i64)
    requires
        stands(d, p, var_i64_bytes(v)),
    ensures
        read_var_i64(d, p) == (Ok::<i64, Error>(v), p + var_i64_bytes(v).len()),
{
    reveal_with_fuel(pow128, 11);
    law_groups_round_trip(d, p, unsigned(v as int, 0x1_0000_0000_0000_0000) as nat, 10);
}

/// A length that a VarInt can hold and the reader allows is read back.
pub proof fn law_var_len_round_trip(d: Seq<u8>, p: int, n: nat, what: &'static str, max: usize)
    requires
        stands(d, p, len_bytes(n)),
        n <= max,
        n <= i32::MAX,
    ensures
        read_var_len(d, p, what, max) == (Ok::<usize, Error>(n as usize), p + len_bytes(n).len()),
{
    reveal_with_fuel(pow128, 6);
    law_groups_round_trip(d, p, n, 5);
}

/// A byte string that the reader allows is read back from its length-prefixed form.
pub proof fn law_sized_round_trip(d: Seq<u8>, p: int, s: Seq<u8>, what: &'static str, max: usize)
    requires
        stands(d, p, sized_bytes(s)),
        s.len() <= max,
        s.len() <= i32::MAX,
    ensures
        read_sized(d, p, what, max) == (Ok::<Seq<u8>, Error>(s), p + sized_bytes(s).len()),
{
    lemma_stands_split(d, p, len_bytes(s.len()), s);
    law_var_len_round_trip(d, p, s.len(), what, max);
    law_take(d, p + len_bytes(s.len()).len(), s);
}

/// A string within the limit is read back.
pub proof fn law_string_round_trip(d: Seq<u8>, p: int, s: Seq<char>)
    requires
        stands(d, p, string_bytes(s)),
        encode_utf8(s).len() <= MAX_STRING_BYTES,
    ensures
        read_string(d, p) == (Ok::<Seq<char>, Error>(s), p + string_bytes(s).len()),
{
    law_sized_round_trip(d, p, encode_utf8(s), "string", MAX_STRING_BYTES);
    encode_utf8_valid_utf8(s);
    encode_utf8_decode_utf8(s);
}

/// A UUID that was written is read back.
pub proof fn law_uuid_round_trip(d: Seq<u8>, p: int, high: u64, low: u64)
    requires
        stands(d, p, uuid_bytes(high, low)),
    ensures
        read_uuid(d, p) == (Ok::<(u64, u64), Error>((high, low)), p + 16),
{
    lemma_to_be_len(high as nat, 8);
    lemma_stands_split(d, p, to_be(high as nat, 8), to_be(low as nat, 8));
    law_u64_round_trip(d, p, high);
    law_u64_round_trip(d, p + 8, low);
}

/// The three fields of a packed position.
proof fn lemma_fields(a: int, b: int, c: int)
    requires
        0 <= a < 0x400_0000,
        0 <= b < 0x400_0000,
        0 <= c < 0x1000,
    ensures
        ({
            let n = a * 0x40_0000_0000 + b * 0x1000 + c;
            &&& 0 <= n < 0x1_0000_0000_0000_0000
            &&& n / 0x40_0000_0000 == a
            &&& n % 0x1000 == c
            &&& (n / 0x1000) % 0x400_0000 == b
        }),
{
    let n = a * 0x40_0000_0000 + b * 0x1000 + c;
    let m = a * 0x400_0000 + b;
    assert(n == m * 0x1000 + c);
    assert(n / 0x1000 == m);
}

/// A position whose components fit their bits comes back from its packed form.
pub proof fn law_unpack_pack(x: i32, y: i32, z: i32)
    requires
        -0x200_0000 <= x < 0x200_0000,
        -0x800 <= y < 0x800,
        -0x200_0000 <= z < 0x200_0000,
    ensures
        unpacked(packed(x, y, z)) == (x, y, z),
{
    let a = x as int % 0x400_0000;
    let b = z as int % 0x400_0000;
    let c = y as int % 0x1000;
    lemma_fields(a, b, c);
    assert(signed(a, 0x400_0000) == x);
    assert(signed(b, 0x400_0000) == z);
    assert(signed(c, 0x1000) == y);
}

/// Every packed position is the packed form of its components.
pub proof fn law_pack_unpack(v: i64)
    ensures
        ({
            let (x, y, z) = unpacked(v);
            &&& packed(x, y, z) == v
            &&& -0x200_0000 <= x < 0x200_0000
            &&& -0x800 <= y < 0x800
            &&& -0x200_0000 <= z < 0x200_0000
        }),
{
    let n = unsigned(v as int, 0x1_0000_0000_0000_0000);
    let a = n / 0x40_0000_0000;
    let b = (n / 0x1000) % 0x400_0000;
    let c = n % 0x1000;
    assert(0 <= a < 0x400_0000);
    assert(n == a * 0x40_0000_0000 + b * 0x1000 + c);
    assert(signed(a, 0x400_0000) % 0x400_0000 == a);
    assert(signed(b, 0x400_0000) % 0x400_0000 == b);
    assert(signed(c, 0x1000) % 0x1000 == c);
}

/// A position whose components fit their bits is read back.
pub proof fn law_block_pos_round_trip(d: Seq<u8>, p: int, x: i32, y: i32, z: i32)
    requires
        stands(d, p, block_pos_bytes(x, y, z)),
        -0x200_0000 <= x < 0x200_0000,
        -0x800 <= y < 0x800,
        -0x200_0000 <= z < 0x200_0000,
    ensures
        read_block_pos(d, p) == (Ok::<(i32, i32, i32), Error>((x, y, z)), p + 8),
{
    law_i64_round_trip(d, p, packed(x, y, z));
    law_unpack_pack(x, y, z);
}

/// Puts what was read so far in front of what is still to come.
pub open spec fn after<T, E>(done: Seq<T>, step: (Result<Seq<T>, E>, int)) -> (
    Result<Seq<T>, E>,
    int,
) {
    match step {
        (Ok(rest), q) => (Ok(done + rest), q),
        (Err(e), q) => (Err(e), q),
    }
}

/// What was read last goes in front of what is still to come, or behind what was read before.
pub proof fn lemma_after_push<T, E>(done: Seq<T>, last: T, step: (Result<Seq<T>, E>, int))
    ensures
        after(done.push(last), step) == after(done, after(seq![last], step)),
{
    if let (Ok(rest), _) = step {
        assert(done + (seq![last] + rest) =~= done.push(last) + rest);
    }
}

/// The byte strings stand in the buffer `d` one behind the other, from position `p` on.
pub open spec fn laid(d: Seq<u8>, p: int, parts: Seq<Seq<u8>>) -> bool
    decreases parts.len(),
{
    if parts.len() == 0 {
        0 <= p <= d.len()
    } else {
        stands(d, p, parts[0]) && laid(d, p + parts[0].len(), parts.skip(1))
    }
}

/// How long byte strings are together.
pub open spec fn total(parts: Seq<Seq<u8>>) -> nat
    decreases parts.len(),
{
    if parts.len() == 0 {
        0
    } else {
        parts[0].len() + total(parts.skip(1))
    }
}

/// Byte strings that stand one behind the other stand there part by part.
pub proof fn lemma_laid_parts(d: Seq<u8>, p: int, a: Seq<Seq<u8>>, b: Seq<Seq<u8>>)
    ensures
        laid(d, p, a + b) ==> laid(d, p, a) && laid(d, p + total(a), b),
        total(a + b) == total(a) + total(b),
    decreases a.len(),
{
    if a.len() == 0 {
        assert(a + b =~= b);
        lemma_laid_within(d, p, b);
    } else {
        assert((a + b).skip(1) =~= a.skip(1) + b);
        lemma_laid_parts(d, p + a[0].len(), a.skip(1), b);
    }
}

/// What stands in a buffer starts in it.
proof fn lemma_laid_within(d: Seq<u8>, p: int, parts: Seq<Seq<u8>>)
    ensures
        laid(d, p, parts) ==> 0 <= p <= d.len(),
{
}

/// A `u16` that was written is read back.
pub proof fn law_u16_round_trip(d: Seq<u8>, p: int, v: u16)
    requires
        stands(d, p, to_be(v as nat, 2)),
    ensures
        read_u16(d, p) == (Ok::<u16, Error>(v), p + 2),
        to_be(v as nat, 2).len() == 2,
{
    reveal_with_fuel(pow256, 3);
    lemma_read_be(d, p, v as nat, 2);
    lemma_to_be_len(v as nat, 2);
}

} // verus!
