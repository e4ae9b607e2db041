//! Vanilla's `PalettedContainer` network format for block-state sections.
//!
//! Layout, as written since 1.21.5 (and therefore by 26.2):
//!
//! ```text
//! u8   bits_per_entry
//! palette   0      -> varint, one value for the whole section
//!           1..=8  -> varint length, then that many varints
//!           other  -> nothing; entries are registry ids already
//! i64  packed entries, least-significant entry first, never split across words.
//!      The count is implied by bits_per_entry, not length-prefixed.
//! ```

use vstd::arithmetic::power2::*;
use vstd::prelude::*;

use crate::buf::{Error, Reader, Writer};
use crate::wire;

verus! {

/// 16 × 16 × 16.
pub const SECTION_VOLUME: usize = 4096;

/// Vanilla stores 1–4 bit palettes at 4 bits per entry regardless of what fits.
pub const MIN_INDIRECT_BITS: u8 = 4;

/// Registry ids are `u16`, so nothing legitimate needs more.
pub const MAX_BITS: u8 = 16;

/// Largest palette an indirect section can carry, at 8 bits per entry.
pub const MAX_INDIRECT_PALETTE: usize = 256;

/// Index of a block within a section, matching vanilla's `(y << 8) | (z << 4) | x`.
pub fn index_of(x: usize, y: usize, z: usize) -> (r: usize)
    ensures
        r == ((y << 8) | (z << 4) | x),
        x < 16 && y < 16 && z < 16 ==> r == y * 256 + z * 16 + x && r < SECTION_VOLUME,
{
    assert(x < 16 && y < 16 && z < 16 ==> ((y << 8) | (z << 4) | x) == y * 256 + z * 16 + x)
        by (bit_vector);
    (y << 8) | (z << 4) | x
}

/// How many words the entries of a section take up at `bits` each.
pub open spec fn word_count(bits: nat) -> nat {
    let per_word = 64nat / bits;
    ((4096 + per_word - 1) as nat) / per_word
}

/// How many words the entries of a section take up at `bits` each.
pub fn packed_len(bits: u8) -> (r: usize)
    requires
        1 <= bits <= 64,
    ensures
        r == word_count(bits as nat),
{
    let per_word: usize = 64 / bits as usize;
    assert(1 <= 64int / bits as int <= 64) by (nonlinear_arith)
        requires
            1 <= bits <= 64,
    ;
    (SECTION_VOLUME + per_word - 1) / per_word
}

/// A registry id.
pub open spec fn read_id_at(d: Seq<u8>, p: int) -> (Result<u16, Error>, int) {
    match wire::read_var_i32(d, p) {
        (Ok(raw), q) => if 0 <= raw <= 0xffff {
            (Ok(raw as u16), q)
        } else {
            (Err(Error::TooLarge { what: "registry id", len: 0, max: 0xffff }), q)
        },
        (Err(e), q) => (Err(e), q),
    }
}

/// `n` registry ids that follow each other.
pub open spec fn read_ids_at(d: Seq<u8>, p: int, n: nat) -> (Result<Seq<u16>, Error>, int)
    decreases n,
{
    if n == 0 {
        (Ok(Seq::empty()), p)
    } else {
        match read_id_at(d, p) {
            (Ok(id), q) => match read_ids_at(d, q, (n - 1) as nat) {
                (Ok(rest), q2) => (Ok(seq![id] + rest), q2),
                (Err(e), q2) => (Err(e), q2),
            },
            (Err(e), q) => (Err(e), q),
        }
    }
}

/// The digit `j` of `word` in the given base, counted from the least significant one.
pub open spec fn slot(word: nat, base: nat, j: nat) -> nat
    decreases j,
{
    if j == 0 {
        word % base
    } else {
        slot(word / base, base, (j - 1) as nat)
    }
}

/// The packed value of entry `i` of a section.
pub open spec fn packed_entry(words: Seq<u8>, bits: nat, i: int) -> nat {
    let per_word = 64int / bits as int;
    let start = (i / per_word) * 8;
    slot(wire::be(words.subrange(start, start + 8)), pow2(bits), (i % per_word) as nat)
}

/// The id of entry `i` of a section: looked up in the palette, or the packed value itself.
pub open spec fn id_at(
    words: Seq<u8>,
    bits: nat,
    palette: Option<Seq<u16>>,
    i: int,
) -> Result<u16, Error> {
    let raw = packed_entry(words, bits, i);
    match palette {
        Some(ids) => if raw < ids.len() {
            Ok(ids[raw as int])
        } else {
            Err(
                Error::TooLarge {
                    what: "palette index",
                    len: raw as usize,
                    max: ids.len() as usize,
                },
            )
        },
        None => Ok(raw as u16),
    }
}

/// The ids of a section from entry `i` on; the first one that is not in the palette decides
/// the error.
pub open spec fn ids_from(
    words: Seq<u8>,
    bits: nat,
    palette: Option<Seq<u16>>,
    i: int,
) -> Result<Seq<u16>, Error>
    decreases 4096 - i,
{
    if i >= 4096 {
        Ok(Seq::empty())
    } else {
        match id_at(words, bits, palette, i) {
            Ok(id) => match ids_from(words, bits, palette, i + 1) {
                Ok(rest) => Ok(seq![id] + rest),
                Err(e) => Err(e),
            },
            Err(e) => Err(e),
        }
    }
}

/// The width that entries are stored at: the declared one, but at least four bits under a
/// palette, and sixteen at most without one.
pub open spec fn stored_bits(declared: u8) -> nat {
    if declared <= 8 {
        if declared < 4 {
            4
        } else {
            declared as nat
        }
    } else if declared <= 16 {
        declared as nat
    } else {
        16
    }
}

/// The packed entries of a section, as ids.
pub open spec fn read_packed(d: Seq<u8>, p: int, bits: nat, palette: Option<Seq<u16>>) -> (
    Result<Seq<u16>, Error>,
    int,
) {
    match wire::take(d, p, word_count(bits) as int * 8) {
        (Ok(words), q) => (ids_from(words, bits, palette, 0), q),
        (Err(e), q) => (Err(e), q),
    }
}

/// One section's worth of registry ids.
pub open spec fn section_at(d: Seq<u8>, p: int) -> (Result<Seq<u16>, Error>, int) {
    match wire::read_u8(d, p) {
        (Ok(declared), q) => {
            let bits = stored_bits(declared);
            if declared == 0 {
                match read_id_at(d, q) {
                    (Ok(id), q2) => (Ok(Seq::new(4096, |i: int| id)), q2),
                    (Err(e), q2) => (Err(e), q2),
                }
            } else if declared <= 8 {
                match wire::read_var_len(d, q, "palette", pow2(bits) as usize) {
                    (Ok(n), q2) => match read_ids_at(d, q2, n as nat) {
                        (Ok(ids), q3) => read_packed(d, q3, bits, Some(ids)),
                        (Err(e), q3) => (Err(e), q3),
                    },
                    (Err(e), q2) => (Err(e), q2),
                }
            } else {
                read_packed(d, q, bits, None)
            }
        },
        (Err(e), q) => (Err(e), q),
    }
}

/// What reading ids says, with the ids taken by their contents.
pub open spec fn ids_of(r: Result<Vec<u16>, Error>) -> Result<Seq<u16>, Error> {
    match r {
        Ok(ids) => Ok(ids@),
        Err(e) => Err(e),
    }
}

fn read_id(r: &mut Reader<'_>) -> (res: Result<u16, Error>)
    requires
        old(r).wf(),
    ensures
        final(r).wf(),
        final(r).data() == old(r).data(),
        (res, final(r).at()) == read_id_at(old(r).data(), old(r).at()),
{
    let raw: i32 = r.var_i32()?;
    if 0 <= raw && raw <= 0xffff {
        Ok(raw as u16)
    } else {
        Err(Error::TooLarge { what: "registry id", len: 0, max: 0xffff })
    }
}

fn read_palette(r: &mut Reader<'_>, len: usize) -> (res: Result<Vec<u16>, Error>)
    requires
        old(r).wf(),
    ensures
        final(r).wf(),
        final(r).data() == old(r).data(),
        (ids_of(res), final(r).at()) == read_ids_at(old(r).data(), old(r).at(), len as nat),
{
    let mut palette: Vec<u16> = Vec::with_capacity(len);
    assert(forall|s: Seq<u16>| palette@ + s =~= s);
    let mut i: usize = 0;
    while i < len
        invariant
            i <= len,
            r.wf(),
            r.data() == old(r).data(),
            wire::after(palette@, read_ids_at(r.data(), r.at(), (len - i) as nat)) == read_ids_at(
                old(r).data(),
                old(r).at(),
                len as nat,
            ),
        decreases len - i,
    {
        let ghost before = palette@;
        let id: u16 = read_id(r)?;
        palette.push(id);
        i += 1;
        assert(forall|s: Seq<u16>| before + (seq![id] + s) =~= before.push(id) + s);
    }
    assert(palette@ + Seq::<u16>::empty() =~= palette@);
    Ok(palette)
}

/// The number that eight bytes stand for, most significant first.
fn word_at(words: &[u8], start: usize) -> (r: u64)
    requires
        start + 8 <= words@.len(),
    ensures
        r == wire::be(words@.subrange(start as int, start + 8)),
{
    let mut word: u64 = 0;
    let mut k: usize = 0;
    proof {
        reveal_with_fuel(wire::be, 1);
        assert(words@.subrange(start as int, start as int) =~= Seq::<u8>::empty());
        reveal_with_fuel(wire::pow256, 9);
    }
    while k < 8
        invariant
            k <= 8,
            start + 8 <= words.len(),
            word == wire::be(words@.subrange(start as int, start + k)),
            word < wire::pow256(k as nat),
        decreases 8 - k,
    {
        proof {
            let s = words@.subrange(start as int, start + k + 1);
            assert(s.drop_last() =~= words@.subrange(start as int, start + k));
            reveal_with_fuel(wire::pow256, 9);
        }
        word = word * 256 + words[start + k] as u64;
        k += 1;
    }
    word
}

/// Two to the power `bits`.
fn base_of(bits: u8) -> (r: u64)
    requires
        bits <= 16,
    ensures
        r == pow2(bits as nat),
        1 <= r <= 0x1_0000,
{
    proof {
        lemma2_to64();
        vstd::bits::lemma_u64_shl_is_mul(1, bits as u64);
        lemma_pow2_pos(bits as nat);
        if bits < 16 {
            lemma_pow2_strictly_increases(bits as nat, 16);
        }
    }
    1u64 << bits
}

/// Where the word of entry `i` stands.
proof fn lemma_word_place(i: int, per_word: int)
    requires
        0 <= i < 4096,
        1 <= per_word <= 64,
    ensures
        0 <= i / per_word,
        (i / per_word) * 8 + 8 <= ((4096 + per_word - 1) / per_word) * 8,
        0 <= i % per_word < per_word,
{
    assert(i / per_word + 1 <= (4096 + per_word - 1) / per_word) by (nonlinear_arith)
        requires
            0 <= i < 4096,
            1 <= per_word,
    ;
}

/// What is left of `word` once its lowest `j` digits are taken off.
spec fn shifted(word: nat, base: nat, j: nat) -> nat
    decreases j,
{
    if j == 0 {
        word
    } else {
        shifted(word, base, (j - 1) as nat) / base
    }
}

proof fn lemma_shifted(word: nat, base: nat, j: nat)
    requires
        1 <= base,
    ensures
        shifted(word, base, j + 1) == shifted(word / base, base, j),
    decreases j,
{
    reveal_with_fuel(shifted, 2);
    if j > 0 {
        lemma_shifted(word, base, (j - 1) as nat);
    }
}

proof fn lemma_slot_shifted(word: nat, base: nat, j: nat)
    requires
        1 <= base,
    ensures
        slot(word, base, j) == shifted(word, base, j) % base,
    decreases j,
{
    if j > 0 {
        lemma_slot_shifted(word / base, base, (j - 1) as nat);
        lemma_shifted(word, base, (j - 1) as nat);
    }
}

/// The ids of packed entries.
fn unpack(words: &[u8], bits: u8, palette: &Option<Vec<u16>>) -> (res: Result<Vec<u16>, Error>)
    requires
        1 <= bits <= 16,
        words@.len() == word_count(bits as nat) * 8,
    ensures
        ids_of(res) == ids_from(
            words@,
            bits as nat,
            match palette {
                Some(ids) => Some(ids@),
                None => None,
            },
            0,
        ),
{
    let ghost ids = match palette {
        Some(ids) => Some(ids@),
        None => None,
    };
    let per_word: usize = 64 / bits as usize;
    let base: u64 = base_of(bits);
    assert(1 <= 64int / bits as int <= 64) by (nonlinear_arith)
        requires
            1 <= bits <= 16,
    ;
    let mut out: Vec<u16> = Vec::with_capacity(SECTION_VOLUME);
    let mut word: u64 = 0;
    assert(forall|s: Seq<u16>| out@ + s =~= s);
    let mut i: usize = 0;
    while i < SECTION_VOLUME
        invariant
            i <= 4096,
            1 <= bits <= 16,
            per_word == 64int / bits as int,
            1 <= per_word <= 64,
            base == pow2(bits as nat),
            1 <= base <= 0x1_0000,
            words@.len() == word_count(bits as nat) * 8,
            ids == (match palette {
                Some(ids) => Some(ids@),
                None => None,
            }),
            i as int % per_word as int > 0 ==> word == shifted(
                wire::be(
                    words@.subrange(
                        (i as int / per_word as int) * 8,
                        (i as int / per_word as int) * 8 + 8,
                    ),
                ),
                base as nat,
                (i as int % per_word as int) as nat,
            ),
            wire::after(out@, (ids_from(words@, bits as nat, ids, i as int), 0)) == wire::after(
                Seq::empty(),
                (ids_from(words@, bits as nat, ids, 0), 0),
            ),
        decreases 4096 - i,
    {
        let ghost place = (i as int / per_word as int) * 8;
        let ghost at = (i as int % per_word as int) as nat;
        let ghost whole = wire::be(words@.subrange(place, place + 8));
        proof {
            lemma_word_place(i as int, per_word as int);
        }
        if i % per_word == 0 {
            word = word_at(words, (i / per_word) * 8);
        }
        let raw: u64 = word % base;
        proof {
            lemma_slot_shifted(whole, base as nat, at);
            lemma_next_place(i as int, per_word as int);
            assert(raw == packed_entry(words@, bits as nat, i as int));
        }
        word = word / base;
        let ghost before = out@;
        let id: u16 = match palette {
            Some(known) => {
                if raw < known.len() as u64 {
                    known[raw as usize]
                } else {
                    return Err(
                        Error::TooLarge {
                            what: "palette index",
                            len: raw as usize,
                            max: known.len(),
                        },
                    );
                }
            },
            None => raw as u16,
        };
        out.push(id);
        i += 1;
        assert(forall|s: Seq<u16>| before + (seq![id] + s) =~= before.push(id) + s);
    }
    assert(out@ + Seq::<u16>::empty() =~= out@);
    Ok(out)
}

/// Where the entry behind entry `i` stands.
proof fn lemma_next_place(i: int, per_word: int)
    requires
        0 <= i,
        1 <= per_word,
    ensures
        (i + 1) % per_word > 0 ==> (i + 1) / per_word == i / per_word && (i + 1) % per_word == i
            % per_word + 1,
{
    vstd::arithmetic::div_mod::lemma_fundamental_div_mod(i, per_word);
    vstd::arithmetic::div_mod::lemma_fundamental_div_mod(i + 1, per_word);
    let (q, r) = (i / per_word, i % per_word);
    if r + 1 < per_word {
        assert(i + 1 == q * per_word + (r + 1)) by (nonlinear_arith)
            requires
                i == per_word * q + r,
        ;
        vstd::arithmetic::div_mod::lemma_fundamental_div_mod_converse(i + 1, per_word, q, r + 1);
    } else {
        assert(i + 1 == (q + 1) * per_word) by (nonlinear_arith)
            requires
                i == per_word * q + r,
                r + 1 == per_word,
        ;
        vstd::arithmetic::div_mod::lemma_fundamental_div_mod_converse(i + 1, per_word, q + 1, 0);
    }
}

/// Reads one section's worth of registry ids.
///
/// `_direct_bits` is what the server would use for a global-palette section. The
/// declared width describes the bytes actually sent, so it counts over that.
pub fn read_section(r: &mut Reader<'_>, _direct_bits: u8) -> (res: Result<Vec<u16>, Error>)
    requires
        old(r).wf(),
    ensures
        final(r).wf(),
        final(r).data() == old(r).data(),
        (ids_of(res), final(r).at()) == section_at(old(r).data(), old(r).at()),
{
    let declared: u8 = r.u8()?;
    if declared == 0 {
        let value: u16 = read_id(r)?;
        let ids: Vec<u16> = vec![value; SECTION_VOLUME];
        assert(ids@ =~= Seq::new(4096, |i: int| value));
        return Ok(ids);
    }
    let bits: u8;
    let palette: Option<Vec<u16>>;
    if declared <= 8 {
        bits = if declared < MIN_INDIRECT_BITS { MIN_INDIRECT_BITS } else { declared };
        let len: usize = r.var_len("palette", base_of(bits) as usize)?;
        palette = Some(read_palette(r, len)?);
    } else {
        bits = if declared <= MAX_BITS { declared } else { MAX_BITS };
        palette = None;
    }
    let words: usize = packed_len(bits);
    assert(words <= 4096) by {
        lemma_word_count(bits as nat);
    }
    let packed = r.take(words * 8)?;
    unpack(packed, bits, &palette)
}

proof fn lemma_word_count(bits: nat)
    requires
        1 <= bits <= 16,
    ensures
        word_count(bits) <= 4096,
{
    assert(1 <= 64nat / bits) by (nonlinear_arith)
        requires
            1 <= bits <= 16,
    ;
    let per_word = 64nat / bits;
    assert(((4096 + per_word - 1) as nat) / per_word <= 4096) by (nonlinear_arith)
        requires
            1 <= per_word,
    ;
}

/// The distinct ids of a section, in the order they first occur.
pub open spec fn distinct(entries: Seq<u16>) -> Seq<u16>
    decreases entries.len(),
{
    if entries.len() == 0 {
        Seq::empty()
    } else {
        let seen = distinct(entries.drop_last());
        if seen.contains(entries.last()) {
            seen
        } else {
            seen.push(entries.last())
        }
    }
}

/// How many bits it takes to address `len` palette entries; one at least.
pub open spec fn address_bits(len: nat) -> nat
    decreases len,
{
    if len <= 2 {
        1
    } else {
        1 + address_bits((len + 1) / 2)
    }
}

/// The width of an indirect section: what its palette needs, but at least four bits.
pub open spec fn indirect_bits(len: nat) -> nat {
    if address_bits(len) < 4 {
        4
    } else {
        address_bits(len)
    }
}

/// Digits in the given base as one number, least significant first.
pub open spec fn packed_word(digits: Seq<nat>, base: nat) -> nat
    decreases digits.len(),
{
    if digits.len() == 0 {
        0
    } else {
        digits[0] + base * packed_word(digits.skip(1), base)
    }
}

/// Digits as words of eight bytes with `64 / bits` digits each; none is split across words.
pub open spec fn packed_words(digits: Seq<nat>, bits: nat) -> Seq<u8>
    decreases digits.len(),
{
    let per_word = 64nat / bits;
    if per_word < 1 || digits.len() == 0 {
        Seq::empty()
    } else if digits.len() <= per_word {
        wire::to_be(packed_word(digits, pow2(bits)), 8)
    } else {
        wire::to_be(packed_word(digits.take(per_word as int), pow2(bits)), 8) + packed_words(
            digits.skip(per_word as int),
            bits,
        )
    }
}

/// Registry ids as they follow each other on the wire.
pub open spec fn ids_bytes(ids: Seq<u16>) -> Seq<u8>
    decreases ids.len(),
{
    if ids.len() == 0 {
        Seq::empty()
    } else {
        wire::var_i32_bytes(ids[0] as i32) + ids_bytes(ids.skip(1))
    }
}

/// For each entry, where it stands in the palette.
pub open spec fn places(entries: Seq<u16>, palette: Seq<u16>) -> Seq<nat> {
    Seq::new(entries.len(), |i: int| palette.index_of_first(entries[i])->Some_0 as nat)
}

/// A section with an indirect palette.
pub open spec fn indirect_bytes(entries: Seq<u16>) -> Seq<u8> {
    let palette = distinct(entries);
    let bits = indirect_bits(palette.len());
    seq![bits as u8] + wire::var_i32_bytes(palette.len() as i32) + ids_bytes(palette)
        + packed_words(places(entries, palette), bits)
}

/// The distinct ids of a section hold what the section holds, each id once.
pub proof fn lemma_distinct(entries: Seq<u16>)
    ensures
        distinct(entries).no_duplicates(),
        forall|i: int| 0 <= i < entries.len() ==> distinct(entries).contains(#[trigger] entries[i]),
    decreases entries.len(),
{
    if entries.len() > 0 {
        let init = entries.drop_last();
        let seen = distinct(init);
        lemma_distinct(init);
        let all = distinct(entries);
        assert forall|i: int| 0 <= i < entries.len() implies all.contains(#[trigger] entries[i]) by {
            if i < init.len() {
                assert(seen.contains(init[i]));
                let j = choose|j: int| 0 <= j < seen.len() && seen[j] == init[i];
                assert(all[j] == entries[i]);
            } else if !seen.contains(entries.last()) {
                assert(all[seen.len() as int] == entries[i]);
            }
        }
    }
}

/// The distinct ids of a part of a section are the first ones of the whole.
proof fn lemma_distinct_part(entries: Seq<u16>, n: int)
    requires
        0 <= n <= entries.len(),
    ensures
        distinct(entries.take(n)).len() <= distinct(entries).len(),
        forall|i: int|
            0 <= i < distinct(entries.take(n)).len() ==> distinct(entries)[i] == #[trigger] distinct(
                entries.take(n),
            )[i],
    decreases entries.len(),
{
    if n == entries.len() {
        assert(entries.take(n) =~= entries);
    } else {
        assert(entries.drop_last().take(n) =~= entries.take(n));
        lemma_distinct_part(entries.drop_last(), n);
    }
}

/// Two to the power of the address width is room enough, and no more than 256 for up to 256
/// entries.
proof fn lemma_address_bits(len: nat)
    ensures
        1 <= address_bits(len),
        len <= pow2(address_bits(len)),
        len <= 256 ==> address_bits(len) <= 8,
    decreases len,
{
    lemma2_to64();
    if len > 2 {
        let half = (len + 1) / 2;
        lemma_address_bits(half);
        lemma_pow2_unfold(address_bits(len));
    }
    if len <= 256 {
        lemma_address_bits_bound(len, 8);
    }
}

pub proof fn lemma_address_bits_bound(len: nat, n: nat)
    requires
        1 <= n,
        len <= pow2(n),
    ensures
        address_bits(len) <= n,
    decreases n,
{
    lemma2_to64();
    if len > 2 {
        if n == 1 {
        } else {
            lemma_pow2_unfold(n);
            lemma_address_bits_bound((len + 1) / 2, (n - 1) as nat);
        }
    }
}

/// Bits needed to address `len` palette entries.
fn encompassing_bits(len: usize) -> (r: u8)
    requires
        len <= MAX_INDIRECT_PALETTE,
    ensures
        r == address_bits(len as nat),
        1 <= r <= 8,
    decreases len,
{
    proof {
        lemma_address_bits(len as nat);
    }
    if len <= 2 {
        1
    } else {
        proof {
            lemma_address_bits((len as nat + 1) / 2);
        }
        1 + encompassing_bits((len + 1) / 2)
    }
}

fn find_id(palette: &Vec<u16>, id: u16) -> (r: Option<usize>)
    ensures
        match r {
            Some(i) => i < palette@.len() && palette@[i as int] == id,
            None => !palette@.contains(id),
        },
{
    let mut i: usize = 0;
    while i < palette.len()
        invariant
            i <= palette@.len(),
            forall|j: int| 0 <= j < i ==> palette@[j] != id,
        decreases palette@.len() - i,
    {
        if palette[i] == id {
            return Some(i);
        }
        i += 1;
    }
    None
}

/// The numbers as digits.
spec fn digits_of(indices: Seq<u64>) -> Seq<nat> {
    Seq::new(indices.len(), |i: int| indices[i] as nat)
}

/// Digits below the base make a number that fits in as many bits as they have.
proof fn lemma_packed_word_bound(digits: Seq<nat>, bits: nat)
    requires
        forall|i: int| 0 <= i < digits.len() ==> #[trigger] digits[i] < pow2(bits),
    ensures
        packed_word(digits, pow2(bits)) < pow2(bits * digits.len()),
    decreases digits.len(),
{
    let n = digits.len();
    if n == 0 {
        lemma2_to64();
        assert(bits * n == 0) by (nonlinear_arith)
            requires
                n == 0,
        ;
    } else {
        let rest = digits.skip(1);
        let m = (n - 1) as nat;
        let tail = packed_word(rest, pow2(bits));
        assert forall|i: int| 0 <= i < rest.len() implies #[trigger] rest[i] < pow2(bits) by {
            assert(rest[i] == digits[i + 1]);
        }
        lemma_packed_word_bound(rest, bits);
        assert(bits * n == bits + bits * m) by (nonlinear_arith)
            requires
                n == m + 1,
        ;
        lemma_pow2_adds(bits, bits * m);
        let (b, c) = (pow2(bits), pow2(bits * m));
        assert(digits[0] < b);
        assert(digits[0] + b * tail < b * c) by (nonlinear_arith)
            requires
                digits[0] < b,
                tail + 1 <= c,
        ;
    }
}

/// As many digits as fit in a word make a number that does.
proof fn lemma_word_fits(digits: Seq<nat>, bits: nat)
    requires
        1 <= bits <= 64,
        digits.len() <= 64nat / bits,
        forall|i: int| 0 <= i < digits.len() ==> #[trigger] digits[i] < pow2(bits),
    ensures
        packed_word(digits, pow2(bits)) <= u64::MAX,
{
    lemma_packed_word_bound(digits, bits);
    let n = digits.len();
    assert(bits * n <= 64) by (nonlinear_arith)
        requires
            n <= 64nat / bits,
            1 <= bits,
    ;
    lemma2_to64();
    if bits * n < 64 {
        lemma_pow2_strictly_increases(bits * n, 64);
    }
}

/// The digits from `start` to `end` as one word.
fn pack_word(indices: &Vec<u64>, start: usize, end: usize, bits: u8) -> (word: u64)
    requires
        start <= end <= indices@.len(),
        1 <= bits <= 8,
        end - start <= 64nat / bits as nat,
        forall|i: int| 0 <= i < indices@.len() ==> #[trigger] indices@[i] < pow2(bits as nat),
    ensures
        word == packed_word(
            digits_of(indices@).subrange(start as int, end as int),
            pow2(bits as nat),
        ),
{
    let ghost all = digits_of(indices@);
    let base: u64 = base_of(bits);
    let mut word: u64 = 0;
    let mut i: usize = end;
    while i > start
        invariant
            start <= i <= end <= indices@.len(),
            1 <= bits <= 8,
            base == pow2(bits as nat),
            end - start <= 64nat / bits as nat,
            all == digits_of(indices@),
            forall|i: int| 0 <= i < indices@.len() ==> #[trigger] indices@[i] < pow2(bits as nat),
            word == packed_word(all.subrange(i as int, end as int), pow2(bits as nat)),
        decreases i - start,
    {
        i -= 1;
        proof {
            let part = all.subrange(i as int, end as int);
            assert(part.skip(1) =~= all.subrange(i + 1, end as int));
            assert forall|k: int| 0 <= k < part.len() implies #[trigger] part[k] < pow2(
                bits as nat,
            ) by {
                assert(indices@[i + k] < pow2(bits as nat));
            }
            lemma_word_fits(part, bits as nat);
            assert(packed_word(part, base as nat) == indices@[i as int] + base * word);
            assert(base * word >= 0) by (nonlinear_arith);
        }
        word = indices[i] + base * word;
    }
    word
}

fn signed_word(word: u64) -> (r: i64)
    ensures
        wire::i64_bytes(r) == wire::to_be(word as nat, 8),
{
    if word < 0x8000_0000_0000_0000 {
        word as i64
    } else {
        (word as i128 - 0x1_0000_0000_0000_0000) as i64
    }
}

/// Writes the digits as words.
fn write_words(w: &mut Writer, indices: &Vec<u64>, bits: u8)
    requires
        1 <= bits <= 8,
        forall|i: int| 0 <= i < indices@.len() ==> #[trigger] indices@[i] < pow2(bits as nat),
    ensures
        final(w)@ == old(w)@ + packed_words(digits_of(indices@), bits as nat),
{
    let ghost all = digits_of(indices@);
    let per_word: usize = 64 / bits as usize;
    assert(1 <= 64int / bits as int <= 64) by (nonlinear_arith)
        requires
            1 <= bits <= 8,
    ;
    let mut start: usize = 0;
    assert(all.skip(0) =~= all);
    while start < indices.len()
        invariant
            start <= indices@.len(),
            1 <= bits <= 8,
            per_word == 64int / bits as int,
            1 <= per_word <= 64,
            all == digits_of(indices@),
            forall|i: int| 0 <= i < indices@.len() ==> #[trigger] indices@[i] < pow2(bits as nat),
            w@ + packed_words(all.skip(start as int), bits as nat) == old(w)@ + packed_words(
                all,
                bits as nat,
            ),
        decreases indices@.len() - start,
    {
        let ghost left = all.skip(start as int);
        let ghost before = w@;
        let end: usize = if indices.len() - start <= per_word {
            indices.len()
        } else {
            start + per_word
        };
        let word: u64 = pack_word(indices, start, end, bits);
        w.i64(signed_word(word));
        proof {
            if end == indices@.len() {
                assert(all.subrange(start as int, end as int) =~= left);
                assert(all.skip(end as int) =~= Seq::empty());
            } else {
                assert(all.subrange(start as int, end as int) =~= left.take(per_word as int));
                assert(left.skip(per_word as int) =~= all.skip(end as int));
            }
            assert(before + packed_words(left, bits as nat) =~= w@ + packed_words(
                all.skip(end as int),
                bits as nat,
            ));
        }
        start = end;
    }
    assert(all.skip(start as int) =~= Seq::empty());
    assert(w@ =~= old(w)@ + packed_words(all, bits as nat));
}

/// Writes a section using an indirect palette.
///
/// Indirect is deliberate: for widths of 4..=8 the reader honours the width we
/// declare, whereas a direct section is decoded at whatever width the reader's own
/// registry implies — which we would have to guess for an older client. Returns
/// `false`, with nothing written, if the section holds more distinct states than a
/// palette can address, which a 16³ section realistically never does.
pub fn write_section_indirect(w: &mut Writer, entries: &[u16]) -> (r: bool)
    requires
        entries@.len() == SECTION_VOLUME,
    ensures
        r == (distinct(entries@).len() <= MAX_INDIRECT_PALETTE),
        r ==> final(w)@ == old(w)@ + indirect_bytes(entries@),
        !r ==> final(w)@ == old(w)@,
{
    let mut palette: Vec<u16> = Vec::new();
    let mut indices: Vec<u64> = Vec::with_capacity(SECTION_VOLUME);
    let mut i: usize = 0;
    while i < entries.len()
        invariant
            i <= entries@.len(),
            palette@ == distinct(entries@.take(i as int)),
            palette@.len() <= MAX_INDIRECT_PALETTE,
            indices@.len() == i,
            w@ == old(w)@,
            forall|k: int|
                0 <= k < i ==> (#[trigger] indices@[k]) < palette@.len()
                    && palette@[indices@[k] as int] == entries@[k],
        decreases entries@.len() - i,
    {
        let entry: u16 = entries[i];
        proof {
            assert(entries@.take(i + 1).drop_last() =~= entries@.take(i as int));
            assert(entries@.take(i + 1).last() == entry);
        }
        let index: usize = match find_id(&palette, entry) {
            Some(index) => {
                assert(palette@.contains(entry));
                index
            },
            None => {
                if palette.len() == MAX_INDIRECT_PALETTE {
                    proof {
                        lemma_distinct_part(entries@, i + 1);
                    }
                    return false;
                }
                palette.push(entry);
                palette.len() - 1
            },
        };
        indices.push(index as u64);
        i += 1;
    }
    let ghost all = distinct(entries@);
    proof {
        assert(entries@.take(i as int) =~= entries@);
        lemma_distinct(entries@);
        lemma_address_bits(all.len());
    }
    let needed: u8 = encompassing_bits(palette.len());
    let bits: u8 = if needed < MIN_INDIRECT_BITS { MIN_INDIRECT_BITS } else { needed };
    proof {
        if needed < 4 {
            lemma_pow2_strictly_increases(needed as nat, 4);
        }
        assert(digits_of(indices@) =~= places(entries@, all)) by {
            assert forall|k: int| 0 <= k < indices@.len() implies digits_of(indices@)[k] == places(
                entries@,
                all,
            )[k] by {
                all.index_of_first_ensures(entries@[k]);
                assert(all[indices@[k] as int] == entries@[k]);
                assert(all.contains(entries@[k]));
            }
        }
    }
    let ghost start = w@;
    w.u8(bits);
    w.var_i32(palette.len() as i32);
    let ghost head = w@;
    assert(all.skip(0) =~= all);
    let mut k: usize = 0;
    while k < palette.len()
        invariant
            k <= palette@.len(),
            palette@ == all,
            w@ + ids_bytes(all.skip(k as int)) == head + ids_bytes(all),
        decreases palette@.len() - k,
    {
        let ghost before = w@;
        w.var_i32(palette[k] as i32);
        k += 1;
        proof {
            assert(all.skip(k - 1).skip(1) =~= all.skip(k as int));
            assert(before + ids_bytes(all.skip(k - 1)) =~= w@ + ids_bytes(all.skip(k as int)));
        }
    }
    assert(w@ =~= head + ids_bytes(all)) by {
        assert(all.skip(k as int) =~= Seq::empty());
    }
    write_words(w, &indices, bits);
    assert(w@ =~= start + indirect_bytes(entries@));
    true
}

/// Every digit of a packed number is the digit it was packed from.
proof fn lemma_slot_of_packed(digits: Seq<nat>, base: nat, j: int)
    requires
        1 <= base,
        0 <= j < digits.len(),
        forall|i: int| 0 <= i < digits.len() ==> #[trigger] digits[i] < base,
    ensures
        slot(packed_word(digits, base), base, j as nat) == digits[j],
    decreases digits.len(),
{
    let rest = digits.skip(1);
    let tail = packed_word(rest, base);
    let word = packed_word(digits, base);
    assert forall|i: int| 0 <= i < rest.len() implies #[trigger] rest[i] < base by {
        assert(rest[i] == digits[i + 1]);
    }
    assert(digits[0] < base);
    assert(word == tail * base + digits[0]) by (nonlinear_arith)
        requires
            word == digits[0] + base * tail,
    ;
    vstd::arithmetic::div_mod::lemma_fundamental_div_mod_converse(
        word as int,
        base as int,
        tail as int,
        digits[0] as int,
    );
    if j > 0 {
        lemma_slot_of_packed(rest, base, j - 1);
    }
}

/// Each word is where the layout puts it.
proof fn lemma_words_layout(digits: Seq<nat>, bits: nat, i: int)
    requires
        1 <= bits <= 64,
        0 <= i < digits.len(),
        forall|k: int| 0 <= k < digits.len() ==> #[trigger] digits[k] < pow2(bits),
    ensures
        ({
            let per_word = 64int / bits as int;
            let start = (i / per_word) * 8;
            let words = packed_words(digits, bits);
            &&& 0 <= start
            &&& start + 8 <= words.len()
            &&& slot(
                wire::be(words.subrange(start, start + 8)),
                pow2(bits),
                (i % per_word) as nat,
            ) == digits[i]
        }),
    decreases digits.len(),
{
    let per_word = 64int / bits as int;
    assert(1 <= per_word) by (nonlinear_arith)
        requires
            per_word == 64int / bits as int,
            1 <= bits <= 64,
    ;
    let first = if digits.len() <= per_word {
        digits
    } else {
        digits.take(per_word)
    };
    let words = packed_words(digits, bits);
    let word = packed_word(first, pow2(bits));
    assert forall|k: int| 0 <= k < first.len() implies #[trigger] first[k] < pow2(bits) by {
        assert(digits[k] < pow2(bits));
    }
    lemma_word_fits(first, bits);
    reveal_with_fuel(wire::pow256, 9);
    wire::law_be_round_trip(word, 8);
    lemma_pow2_pos(bits);
    if i < per_word {
        assert(i / per_word == 0 && i % per_word == i) by {
            vstd::arithmetic::div_mod::lemma_fundamental_div_mod_converse(i, per_word, 0, i);
        }
        assert(words.subrange(0, 8) =~= wire::to_be(word, 8));
        lemma_slot_of_packed(first, pow2(bits), i);
    } else {
        let rest = digits.skip(per_word);
        let tail = packed_words(rest, bits);
        let j = i - per_word;
        assert forall|k: int| 0 <= k < rest.len() implies #[trigger] rest[k] < pow2(bits) by {
            assert(rest[k] == digits[k + per_word]);
        }
        lemma_words_layout(rest, bits, j);
        assert(i / per_word == j / per_word + 1 && i % per_word == j % per_word) by {
            vstd::arithmetic::div_mod::lemma_fundamental_div_mod(j, per_word);
            let (q, r) = (j / per_word, j % per_word);
            assert(i == (q + 1) * per_word + r) by (nonlinear_arith)
                requires
                    i == j + per_word,
                    j == per_word * q + r,
            ;
            vstd::arithmetic::div_mod::lemma_fundamental_div_mod_converse(i, per_word, q + 1, r);
        }
        let start = (j / per_word) * 8;
        assert(words =~= wire::to_be(word, 8) + tail);
        assert(words.subrange(start + 8, start + 16) =~= tail.subrange(start, start + 8));
    }
}

/// The words of a section are as many as the width implies.
proof fn lemma_words_len(digits: Seq<nat>, bits: nat)
    requires
        1 <= bits <= 64,
    ensures
        ({
            let per_word = 64nat / bits;
            packed_words(digits, bits).len() == ((digits.len() + per_word - 1) as nat / per_word)
                * 8
        }),
    decreases digits.len(),
{
    let per_word = 64nat / bits;
    assert(1 <= per_word) by (nonlinear_arith)
        requires
            per_word == 64nat / bits,
            1 <= bits <= 64,
    ;
    let n = digits.len();
    if n == 0 {
        assert(((per_word - 1) as nat) / per_word == 0) by (nonlinear_arith)
            requires
                1 <= per_word,
        ;
    } else if n <= per_word {
        wire::lemma_to_be_len(packed_word(digits, pow2(bits)), 8);
        assert(((n + per_word - 1) as nat) / per_word == 1) by (nonlinear_arith)
            requires
                1 <= n <= per_word,
        ;
    } else {
        let m = (n - per_word) as nat;
        wire::lemma_to_be_len(packed_word(digits.take(per_word as int), pow2(bits)), 8);
        lemma_words_len(digits.skip(per_word as int), bits);
        assert(((n + per_word - 1) as nat) / per_word == ((m + per_word - 1) as nat) / per_word + 1)
            by (nonlinear_arith)
            requires
                1 <= per_word,
                n == m + per_word,
        ;
    }
}

/// Ids are read back wherever they stand.
proof fn lemma_ids_read_back(ids: Seq<u16>, d: Seq<u8>, p: int)
    requires
        wire::stands(d, p, ids_bytes(ids)),
    ensures
        read_ids_at(d, p, ids.len()) == (
            Ok::<Seq<u16>, Error>(ids),
            p + ids_bytes(ids).len(),
        ),
    decreases ids.len(),
{
    if ids.len() == 0 {
        assert(ids =~= Seq::empty());
    } else {
        let head = wire::var_i32_bytes(ids[0] as i32);
        let rest = ids.skip(1);
        wire::lemma_stands_split(d, p, head, ids_bytes(rest));
        wire::law_var_i32_round_trip(d, p, ids[0] as i32);
        lemma_ids_read_back(rest, d, p + head.len());
        assert(seq![ids[0]] + rest =~= ids);
    }
}

proof fn lemma_ids_from(
    entries: Seq<u16>,
    words: Seq<u8>,
    bits: nat,
    palette: Option<Seq<u16>>,
    i: int,
)
    requires
        entries.len() == 4096,
        0 <= i <= 4096,
        forall|k: int|
            0 <= k < 4096 ==> id_at(words, bits, palette, k) == Ok::<u16, Error>(
                #[trigger] entries[k],
            ),
    ensures
        ids_from(words, bits, palette, i) == Ok::<Seq<u16>, Error>(entries.skip(i)),
    decreases 4096 - i,
{
    if i < 4096 {
        lemma_ids_from(entries, words, bits, palette, i + 1);
        assert(id_at(words, bits, palette, i) == Ok::<u16, Error>(entries[i]));
        assert(seq![entries[i]] + entries.skip(i + 1) =~= entries.skip(i));
    } else {
        assert(entries.skip(i) =~= Seq::empty());
    }
}

/// A section that can be written is read back, wherever it stands.
pub proof fn law_section_round_trip(entries: Seq<u16>, d: Seq<u8>, p: int)
    requires
        entries.len() == SECTION_VOLUME,
        distinct(entries).len() <= MAX_INDIRECT_PALETTE,
        wire::stands(d, p, indirect_bytes(entries)),
    ensures
        section_at(d, p) == (
            Ok::<Seq<u16>, Error>(entries),
            p + indirect_bytes(entries).len(),
        ),
{
    let palette = distinct(entries);
    let n = palette.len();
    let bits = indirect_bits(n);
    let digits = places(entries, palette);
    let words = packed_words(digits, bits);
    let first = seq![bits as u8];
    let count = wire::var_i32_bytes(n as i32);
    lemma_distinct(entries);
    lemma_address_bits(n);
    lemma2_to64();
    if address_bits(n) < 4 {
        lemma_pow2_strictly_increases(address_bits(n), 4);
    }
    wire::lemma_stands_split(d, p, first + count + ids_bytes(palette), words);
    wire::lemma_stands_split(d, p, first + count, ids_bytes(palette));
    wire::lemma_stands_split(d, p, first, count);
    wire::law_u8_round_trip(d, p, bits as u8);
    lemma_pow2_pos(bits);
    if bits < 8 {
        lemma_pow2_strictly_increases(bits, 8);
    }
    wire::law_var_i32_round_trip(d, p + 1, n as i32);
    let q2 = p + 1 + count.len();
    lemma_ids_read_back(palette, d, q2);
    let q3 = q2 + ids_bytes(palette).len();
    assert forall|k: int| 0 <= k < digits.len() implies #[trigger] digits[k] < n by {
        palette.index_of_first_ensures(entries[k]);
        assert(palette.contains(entries[k]));
    }
    lemma_words_len(digits, bits);
    wire::law_take(d, q3, words);
    assert forall|k: int| 0 <= k < 4096 implies id_at(words, bits, Some(palette), k) == Ok::<
        u16,
        Error,
    >(#[trigger] entries[k]) by {
        assert(digits[k] < n);
        lemma_words_layout(digits, bits, k);
        palette.index_of_first_ensures(entries[k]);
        assert(palette.contains(entries[k]));
    }
    lemma_ids_from(entries, words, bits, Some(palette), 0);
    assert(entries.skip(0) =~= entries);
}

/// Ids end inside the buffer, and not before they start.
proof fn lemma_ids_forward(d: Seq<u8>, p: int, n: nat)
    requires
        0 <= p <= d.len(),
    ensures
        p <= read_ids_at(d, p, n).1 <= d.len(),
    decreases n,
{
    if n > 0 {
        wire::lemma_groups_forward(d, p, 5);
        if let (Ok(_), q) = read_id_at(d, p) {
            lemma_ids_forward(d, q, (n - 1) as nat);
        }
    }
}

/// A section ends inside the buffer, and not before it starts.
pub proof fn lemma_section_forward(d: Seq<u8>, p: int)
    requires
        0 <= p <= d.len(),
    ensures
        p <= section_at(d, p).1 <= d.len(),
        section_at(d, p).0 matches Ok(ids) ==> ids.len() == 4096,
{
    if p < d.len() {
        let bits = stored_bits(d[p]);
        wire::lemma_groups_forward(d, p + 1, 5);
        if d[p] == 0 {
        } else if d[p] <= 8 {
            if let (Ok(n), q) = wire::read_var_len(d, p + 1, "palette", pow2(bits) as usize) {
                lemma_ids_forward(d, q, n as nat);
                if let (Ok(ids), q2) = read_ids_at(d, q, n as nat) {
                    if let (Ok(words), q3) = wire::take(d, q2, word_count(bits) as int * 8) {
                        lemma_ids_len(words, bits, Some(ids), 0);
                    }
                }
            }
        } else {
            if let (Ok(words), q3) = wire::take(d, p + 1, word_count(bits) as int * 8) {
                lemma_ids_len(words, bits, None, 0);
            }
        }
    }
}

proof fn lemma_ids_len(words: Seq<u8>, bits: nat, palette: Option<Seq<u16>>, i: int)
    requires
        0 <= i <= 4096,
    ensures
        ids_from(words, bits, palette, i) matches Ok(ids) ==> ids.len() == 4096 - i,
    decreases 4096 - i,
{
    if i < 4096 {
        lemma_ids_len(words, bits, palette, i + 1);
    }
}

/// A section of one value is 4096 times that value.
pub proof fn law_uniform_section_is_read(d: Seq<u8>, p: int, id: u16)
    requires
        wire::laid(d, p, seq![seq![0u8], wire::var_i32_bytes(id as i32)]),
    ensures
        section_at(d, p) == (
            Ok::<Seq<u16>, Error>(Seq::new(4096, |i: int| id)),
            p + 1 + wire::var_i32_bytes(id as i32).len(),
        ),
{
    reveal_with_fuel(wire::laid, 3);
    wire::law_u8_round_trip(d, p, 0);
    wire::law_var_i32_round_trip(d, p + 1, id as i32);
}

/// A section with a palette holds at every place the id that the entry there points to. Entries
/// take up the declared width, but four bits at least.
pub proof fn law_palette_section_is_read(
    d: Seq<u8>,
    p: int,
    declared: u8,
    ids: Seq<u16>,
    entries: Seq<nat>,
)
    requires
        1 <= declared <= 8,
        entries.len() == 4096,
        ids.len() <= pow2(if declared < 4 { 4 } else { declared as nat }),
        forall|i: int| 0 <= i < 4096 ==> #[trigger] entries[i] < ids.len(),
        wire::laid(
            d,
            p,
            seq![
                seq![declared],
                wire::len_bytes(ids.len()),
                ids_bytes(ids),
                packed_words(entries, if declared < 4 { 4 } else { declared as nat }),
            ],
        ),
    ensures
        section_at(d, p).0 == Ok::<Seq<u16>, Error>(
            Seq::new(4096, |i: int| ids[entries[i] as int]),
        ),
{
    let bits: nat = if declared < 4 { 4 } else { declared as nat };
    let words = packed_words(entries, bits);
    let out = Seq::new(4096, |i: int| ids[entries[i] as int]);
    reveal_with_fuel(wire::laid, 5);
    lemma2_to64();
    lemma_pow2_pos(bits);
    if bits < 8 {
        lemma_pow2_strictly_increases(bits, 8);
    }
    let q1 = p + 1;
    let q2 = q1 + wire::len_bytes(ids.len()).len();
    let q3 = q2 + ids_bytes(ids).len();
    wire::law_u8_round_trip(d, p, declared);
    wire::law_var_len_round_trip(d, q1, ids.len(), "palette", pow2(bits) as usize);
    lemma_ids_read_back(ids, d, q2);
    lemma_words_len(entries, bits);
    wire::law_take(d, q3, words);
    assert forall|k: int| 0 <= k < 4096 implies id_at(words, bits, Some(ids), k) == Ok::<
        u16,
        Error,
    >(#[trigger] out[k]) by {
        assert(entries[k] < ids.len());
        lemma_words_layout(entries, bits, k);
    }
    lemma_ids_from(out, words, bits, Some(ids), 0);
    assert(out.skip(0) =~= out);
}

/// A section without a palette holds at every place the id that stands there. Entries take up
/// the declared width, but sixteen bits at most.
pub proof fn law_direct_section_is_read(d: Seq<u8>, p: int, declared: u8, entries: Seq<u16>)
    requires
        9 <= declared,
        entries.len() == 4096,
        forall|i: int|
            0 <= i < 4096 ==> #[trigger] entries[i] < pow2(
                if declared < 16 { declared as nat } else { 16 },
            ),
        wire::laid(
            d,
            p,
            seq![
                seq![declared],
                packed_words(
                    Seq::new(4096, |i: int| entries[i] as nat),
                    if declared < 16 { declared as nat } else { 16 },
                ),
            ],
        ),
    ensures
        section_at(d, p).0 == Ok::<Seq<u16>, Error>(entries),
{
    let bits: nat = if declared < 16 { declared as nat } else { 16 };
    let digits = Seq::new(4096, |i: int| entries[i] as nat);
    let words = packed_words(digits, bits);
    reveal_with_fuel(wire::laid, 3);
    lemma2_to64();
    wire::law_u8_round_trip(d, p, declared);
    lemma_words_len(digits, bits);
    wire::law_take(d, p + 1, words);
    assert forall|k: int| 0 <= k < digits.len() implies #[trigger] digits[k] < pow2(bits) by {
        assert(entries[k] < pow2(bits));
    }
    assert forall|k: int| 0 <= k < 4096 implies id_at(words, bits, None, k) == Ok::<u16, Error>(
        #[trigger] entries[k],
    ) by {
        assert(digits[k] < pow2(bits));
        lemma_words_layout(digits, bits, k);
    }
    lemma_ids_from(entries, words, bits, None, 0);
    assert(entries.skip(0) =~= entries);
}

/// A section that points past its palette is refused.
pub proof fn law_past_the_palette_is_refused(
    words: Seq<u8>,
    bits: nat,
    ids: Seq<u16>,
    i: int,
    from: int,
)
    requires
        0 <= from <= i < 4096,
        packed_entry(words, bits, i) >= ids.len(),
    ensures
        ids_from(words, bits, Some(ids), from) is Err,
    decreases i - from,
{
    if from < i {
        law_past_the_palette_is_refused(words, bits, ids, i, from + 1);
    }
}

/// How many words a section takes up: as many whole entries as fit go into a word of 64 bits, and
/// the words are just enough for 4096 entries.
pub proof fn law_words_are_just_enough(bits: nat)
    requires
        1 <= bits <= 64,
    ensures
        ({
            let per_word = 64nat / bits;
            &&& per_word * bits <= 64 < (per_word + 1) * bits
            &&& (word_count(bits) - 1) * per_word < 4096 <= word_count(bits) * per_word
        }),
{
    let per_word = 64nat / bits;
    assert(per_word * bits <= 64 < (per_word + 1) * bits && 1 <= per_word) by (nonlinear_arith)
        requires
            per_word == 64nat / bits,
            1 <= bits <= 64,
    ;
    let n = ((4096 + per_word - 1) as nat) / per_word;
    assert((n - 1) * per_word < 4096 <= n * per_word) by (nonlinear_arith)
        requires
            1 <= per_word,
            n == ((4096 + per_word - 1) as nat) / per_word,
    ;
}

/// A palette is addressed with as few bits as it takes, but with one at least, and a section with
/// a palette is stored with four at least.
pub proof fn law_width_is_just_enough(len: nat)
    requires
        len > 0,
    ensures
        len <= pow2(address_bits(len)),
        address_bits(len) > 1 ==> pow2((address_bits(len) - 1) as nat) < len,
        address_bits(len) >= 1,
        indirect_bits(len) == if address_bits(len) <= 4 {
            4
        } else {
            address_bits(len)
        },
    decreases len,
{
    vstd::arithmetic::power2::lemma2_to64();
    if len > 2 {
        let half = (len + 1) / 2;
        law_width_is_just_enough(half);
        let bits = address_bits(half);
        vstd::arithmetic::power2::lemma_pow2_unfold(bits + 1);
        assert(address_bits(len) == bits + 1);
        if bits > 1 {
            vstd::arithmetic::power2::lemma_pow2_unfold(bits);
        }
    }
}

/// The ids of a palette stand in the order they first occur: what more entries add comes behind.
pub proof fn law_palette_is_in_order(a: Seq<u16>, b: Seq<u16>)
    ensures
        distinct(a).len() <= distinct(a + b).len(),
        distinct(a + b).take(distinct(a).len() as int) == distinct(a),
    decreases b.len(),
{
    if b.len() == 0 {
        assert(a + b =~= a);
        assert(distinct(a).take(distinct(a).len() as int) =~= distinct(a));
    } else {
        law_palette_is_in_order(a, b.drop_last());
        assert((a + b).drop_last() =~= a + b.drop_last());
        let n = distinct(a).len() as int;
        assert(distinct(a + b).take(n) =~= distinct(a + b.drop_last()).take(n));
    }
}

/// Entries are packed into words of eight bytes, as many as fit whole, the first into the lowest
/// bits.
pub proof fn law_entries_are_packed_from_the_lowest_bits(words: Seq<u8>, bits: nat, i: int)
    requires
        1 <= bits <= 64,
        0 <= i,
    ensures
        ({
            let per_word = 64int / bits as int;
            let start = i / per_word * 8;
            let place = (i % per_word) as nat;
            packed_entry(words, bits, i) == wire::be(words.subrange(start, start + 8)) / pow2(
                bits * place,
            ) % pow2(bits)
        }),
{
    let per_word = 64int / bits as int;
    let start = i / per_word * 8;
    lemma_slot(wire::be(words.subrange(start, start + 8)), bits, (i % per_word) as nat);
}

proof fn lemma_slot(word: nat, bits: nat, j: nat)
    ensures
        slot(word, pow2(bits), j) == word / pow2(bits * j) % pow2(bits),
    decreases j,
{
    let base = pow2(bits);
    vstd::arithmetic::power2::lemma_pow2_pos(bits);
    if j == 0 {
        vstd::arithmetic::power2::lemma2_to64();
        assert(bits * j == 0) by (nonlinear_arith)
            requires
                j == 0,
        ;
        assert(word / 1 == word);
    } else {
        let rest = bits * (j - 1) as nat;
        lemma_slot(word / base, bits, (j - 1) as nat);
        vstd::arithmetic::power2::lemma_pow2_pos(rest);
        vstd::arithmetic::power2::lemma_pow2_adds(bits, rest);
        vstd::arithmetic::div_mod::lemma_div_denominator(
            word as int,
            base as int,
            pow2(rest) as int,
        );
        assert(bits * j == bits + rest) by (nonlinear_arith)
            requires
                j > 0,
                rest == bits * (j - 1) as nat,
        ;
    }
}

/// Ids are those of 16 bits; any other is refused.
pub proof fn law_other_ids_are_refused(d: Seq<u8>, p: int, id: i32)
    requires
        wire::stands(d, p, wire::var_i32_bytes(id)),
    ensures
        0 <= id < 65536 ==> read_id_at(d, p).0 == Ok::<u16, Error>(id as u16),
        id < 0 || id >= 65536 ==> read_id_at(d, p).0 == Err::<u16, Error>(
            Error::TooLarge { what: "registry id", len: 0, max: 65535 },
        ),
{
    wire::law_var_i32_round_trip(d, p, id);
}

/// A palette has no more ids than its width can address, which is four bits at least.
pub proof fn law_large_palettes_are_refused(d: Seq<u8>, p: int, declared: u8, n: i32)
    requires
        1 <= declared <= 8,
        wire::stands(d, p, seq![declared] + wire::var_i32_bytes(n)),
        n > pow2(if declared < 4 { 4 } else { declared as nat }),
    ensures
        section_at(d, p).0 == Err::<Seq<u16>, Error>(
            Error::TooLarge {
                what: "palette",
                len: n as usize,
                max: pow2(if declared < 4 { 4 } else { declared as nat }) as usize,
            },
        ),
{
    wire::lemma_stands_split(d, p, seq![declared], wire::var_i32_bytes(n));
    wire::law_u8_round_trip(d, p, declared);
    wire::law_var_i32_round_trip(d, p + 1, n);
}

} // verus!
