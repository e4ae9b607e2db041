//! NBT values in the form they travel inside packets.

use std::borrow::Cow;

use vstd::prelude::*;
use vstd::slice::slice_subrange;
use vstd::string::*;

use crate::buf::{Error, Reader};
use crate::text;
use crate::wire;
use crate::zstd::{self, Decoder, MAX_BLOCK};

verus! {

/// Maximum nesting a tag may use. Vanilla stops at 512; the point is only to keep
/// a hostile packet from recursing until the stack gives out.
const MAX_DEPTH: u32 = 512;

pub const TAG_BYTE: u8 = 1;

pub const TAG_STRING: u8 = 8;

pub const TAG_LIST: u8 = 9;

pub const TAG_COMPOUND: u8 = 10;

/// A length of an array or a list: four bytes, never negative.
pub open spec fn read_array_len(d: Seq<u8>, p: int) -> (Result<usize, Error>, int) {
    match wire::read_i32(d, p) {
        (Ok(n), q) => if n < 0 {
            (
                Err(Error::TooLarge { what: "nbt array length", len: 0, max: 0x7fff_ffff }),
                q,
            )
        } else {
            (Ok(n as usize), q)
        },
        (Err(e), q) => (Err(e), q),
    }
}

/// Passes over `n` bytes.
pub open spec fn past_bytes(d: Seq<u8>, p: int, n: int) -> (Result<(), Error>, int) {
    match wire::take(d, p, n) {
        (Ok(_), q) => (Ok(()), q),
        (Err(e), q) => (Err(e), q),
    }
}

/// Passes over an array whose items are `width` bytes each.
pub open spec fn past_array(d: Seq<u8>, p: int, width: int) -> (Result<(), Error>, int) {
    match read_array_len(d, p) {
        (Ok(n), q) => past_bytes(d, q, n * width),
        (Err(e), q) => (Err(e), q),
    }
}

/// Passes over a name or a string: two bytes of length, then that many bytes.
pub open spec fn past_text(d: Seq<u8>, p: int) -> (Result<(), Error>, int) {
    match wire::read_u16(d, p) {
        (Ok(n), q) => past_bytes(d, q, n as int),
        (Err(e), q) => (Err(e), q),
    }
}

/// How many more levels may be nested below `depth`.
pub open spec fn levels_left(depth: nat) -> nat {
    if depth <= 512 {
        (513 - depth) as nat
    } else {
        0
    }
}

/// Passes over the payload of a value of type `tag`, nested `depth` levels deep.
pub open spec fn past_payload(d: Seq<u8>, p: int, tag: u8, depth: nat) -> (Result<(), Error>, int)
    decreases levels_left(depth), 0nat, 0int,
{
    if depth > 512 {
        (Err(Error::TooLarge { what: "nbt nesting", len: depth as usize, max: 512 }), p)
    } else if tag == 0 {
        (Ok(()), p)
    } else if tag == 1 {
        past_bytes(d, p, 1)
    } else if tag == 2 {
        past_bytes(d, p, 2)
    } else if tag == 3 || tag == 5 {
        past_bytes(d, p, 4)
    } else if tag == 4 || tag == 6 {
        past_bytes(d, p, 8)
    } else if tag == 7 {
        past_array(d, p, 1)
    } else if tag == 11 {
        past_array(d, p, 4)
    } else if tag == 12 {
        past_array(d, p, 8)
    } else if tag == 8 {
        past_text(d, p)
    } else if tag == 9 {
        match wire::read_u8(d, p) {
            (Ok(element), q) => match read_array_len(d, q) {
                (Ok(n), q2) => if element == 0 {
                    (Ok(()), q2)
                } else {
                    past_items(d, q2, element, n as nat, depth + 1)
                },
                (Err(e), q2) => (Err(e), q2),
            },
            (Err(e), q) => (Err(e), q),
        }
    } else if tag == 10 {
        past_entries(d, p, depth + 1)
    } else {
        (Err(Error::TooLarge { what: "nbt tag type", len: tag as usize, max: 12 }), p)
    }
}

/// Passes over `n` payloads of type `element`, each nested `depth` levels deep.
pub open spec fn past_items(d: Seq<u8>, p: int, element: u8, n: nat, depth: nat) -> (
    Result<(), Error>,
    int,
)
    decreases levels_left(depth), 1nat, n as int,
{
    if n == 0 {
        (Ok(()), p)
    } else {
        match past_payload(d, p, element, depth) {
            (Ok(()), q) => past_items(d, q, element, (n - 1) as nat, depth),
            (Err(e), q) => (Err(e), q),
        }
    }
}

/// Passes over the named values of a compound, up to and including its end marker.
/// A payload that ended where it began or before would leave no progress; there is none.
pub open spec fn past_entries(d: Seq<u8>, p: int, depth: nat) -> (Result<(), Error>, int)
    decreases levels_left(depth), 1nat, d.len() - p,
{
    match wire::read_u8(d, p) {
        (Ok(tag), q) => if tag == 0 {
            (Ok(()), q)
        } else {
            match past_text(d, q) {
                (Ok(()), q2) => match past_payload(d, q2, tag, depth) {
                    (Ok(()), q3) => if p < q3 <= d.len() {
                        past_entries(d, q3, depth)
                    } else {
                        (Err(Error::Eof), q3)
                    },
                    (Err(e), q3) => (Err(e), q3),
                },
                (Err(e), q2) => (Err(e), q2),
            }
        },
        (Err(e), q) => (Err(e), q),
    }
}

/// Consumes one network-form value and gives the bytes it spanned.
pub open spec fn read_network_tag(d: Seq<u8>, p: int) -> (Result<Seq<u8>, Error>, int) {
    match wire::read_u8(d, p) {
        (Ok(tag), q) => match past_payload(d, q, tag, 0) {
            (Ok(()), q2) => (Ok(d.subrange(p, q2)), q2),
            (Err(e), q2) => (Err(e), q2),
        },
        (Err(e), q) => (Err(e), q),
    }
}

fn array_len(r: &mut Reader<'_>) -> (len: Result<usize, Error>)
    requires
        old(r).wf(),
    ensures
        final(r).wf(),
        final(r).data() == old(r).data(),
        (len, final(r).at()) == read_array_len(old(r).data(), old(r).at()),
{
    let raw: i32 = r.i32()?;
    if raw < 0 {
        return Err(Error::TooLarge { what: "nbt array length", len: 0, max: 0x7fff_ffff });
    }
    Ok(raw as usize)
}

fn skip(r: &mut Reader<'_>, n: usize) -> (res: Result<(), Error>)
    requires
        old(r).wf(),
    ensures
        final(r).wf(),
        final(r).data() == old(r).data(),
        (res, final(r).at()) == past_bytes(old(r).data(), old(r).at(), n as int),
{
    r.take(n)?;
    Ok(())
}

fn skip_array(r: &mut Reader<'_>, width: usize) -> (res: Result<(), Error>)
    requires
        old(r).wf(),
        1 <= width <= 8,
    ensures
        final(r).wf(),
        final(r).data() == old(r).data(),
        (res, final(r).at()) == past_array(old(r).data(), old(r).at(), width as int),
{
    let len: usize = array_len(r)?;
    match len.checked_mul(width) {
        Some(n) => skip(r, n),
        None => Err(Error::Eof),
    }
}

fn skip_text(r: &mut Reader<'_>) -> (res: Result<(), Error>)
    requires
        old(r).wf(),
    ensures
        final(r).wf(),
        final(r).data() == old(r).data(),
        (res, final(r).at()) == past_text(old(r).data(), old(r).at()),
{
    let len: u16 = r.u16()?;
    skip(r, len as usize)
}

/// Walks over one payload of type `tag`.
fn skip_payload(r: &mut Reader<'_>, tag: u8, depth: u32) -> (res: Result<(), Error>)
    requires
        old(r).wf(),
        depth <= 513,
    ensures
        final(r).wf(),
        final(r).data() == old(r).data(),
        final(r).at() >= old(r).at(),
        (res, final(r).at()) == past_payload(old(r).data(), old(r).at(), tag, depth as nat),
    decreases 513 - depth,
{
    if depth > MAX_DEPTH {
        return Err(
            Error::TooLarge { what: "nbt nesting", len: depth as usize, max: MAX_DEPTH as usize },
        );
    }
    if tag == 0 {
        Ok(())
    } else if tag == 1 {
        skip(r, 1)
    } else if tag == 2 {
        skip(r, 2)
    } else if tag == 3 || tag == 5 {
        skip(r, 4)
    } else if tag == 4 || tag == 6 {
        skip(r, 8)
    } else if tag == 7 {
        skip_array(r, 1)
    } else if tag == 11 {
        skip_array(r, 4)
    } else if tag == 12 {
        skip_array(r, 8)
    } else if tag == TAG_STRING {
        skip_text(r)
    } else if tag == TAG_LIST {
        let element: u8 = r.u8()?;
        let len: usize = array_len(r)?;
        // A list of TAG_End carries no payload regardless of its length.
        if element == 0 {
            return Ok(());
        }
        let mut i: usize = 0;
        while i < len
            invariant
                i <= len,
                depth <= 512,
                r.wf(),
                r.data() == old(r).data(),
                r.at() >= old(r).at(),
                past_items(r.data(), r.at(), element, (len - i) as nat, (depth + 1) as nat)
                    == past_payload(old(r).data(), old(r).at(), tag, depth as nat),
            decreases len - i,
        {
            skip_payload(r, element, depth + 1)?;
            i += 1;
        }
        Ok(())
    } else if tag == TAG_COMPOUND {
        loop
            invariant
                depth <= 512,
                r.wf(),
                r.data() == old(r).data(),
                r.at() >= old(r).at(),
                past_entries(r.data(), r.at(), (depth + 1) as nat) == past_payload(
                    old(r).data(),
                    old(r).at(),
                    tag,
                    depth as nat,
                ),
            decreases r.data().len() - r.at(),
        {
            let entry: u8 = r.u8()?;
            if entry == 0 {
                return Ok(());
            }
            skip_text(r)?;
            skip_payload(r, entry, depth + 1)?;
        }
    } else {
        Err(Error::TooLarge { what: "nbt tag type", len: tag as usize, max: 12 })
    }
}

/// Consumes one network-form NBT value — a type byte followed by its payload, with
/// no root name — and returns the bytes it spanned.
pub fn take_network_tag<'a>(r: &mut Reader<'a>) -> (res: Result<&'a [u8], Error>)
    requires
        old(r).wf(),
    ensures
        final(r).wf(),
        final(r).data() == old(r).data(),
        (crate::buf::bytes_of(res), final(r).at()) == read_network_tag(old(r).data(), old(r).at()),
{
    let start: usize = r.position();
    let tag: u8 = r.u8()?;
    if tag != 0 {
        skip_payload(r, tag, 0)?;
    }
    r.since(start)
}

/// One named value of a compound, as plain values.
#[verifier::ext_equal]
pub struct FieldView {
    pub tag: u8,
    pub name: Seq<u8>,
    pub payload: Seq<u8>,
}

/// One named value of a compound: its tag type, its name and its payload.
///
/// Payloads stay borrowed from the packet unless an edit replaces them, so
/// filtering a tag copies only what it writes back out.
#[derive(Debug, PartialEq, Eq)]
pub struct Field<'a> {
    pub tag: u8,
    pub name: &'a [u8],
    pub payload: Cow<'a, [u8]>,
}

impl<'a> View for Field<'a> {
    type V = FieldView;

    open spec fn view(&self) -> FieldView {
        FieldView { tag: self.tag, name: self.name@, payload: self.payload@ }
    }
}

impl<'a> Clone for Field<'a> {
    fn clone(&self) -> (r: Self)
        ensures
            r@ == self@,
    {
        let payload = match &self.payload {
            Cow::Borrowed(bytes) => Cow::Borrowed(*bytes),
            Cow::Owned(bytes) => Cow::Owned(bytes.clone()),
        };
        assert(payload@ =~= self.payload@);
        Self { tag: self.tag, name: self.name, payload }
    }
}

/// The fields of a compound, as plain values.
pub open spec fn views(fields: Seq<Field<'_>>) -> Seq<FieldView> {
    Seq::new(fields.len(), |i: int| fields[i]@)
}

/// The compounds of a list, as plain values.
pub open spec fn list_views(compounds: Seq<Vec<Field<'_>>>) -> Seq<Seq<FieldView>> {
    Seq::new(compounds.len(), |i: int| views(compounds[i]@))
}

/// What reading a compound says, with the fields taken by their contents.
pub open spec fn fields_of(r: Result<Vec<Field<'_>>, Error>) -> Result<Seq<FieldView>, Error> {
    match r {
        Ok(fields) => Ok(views(fields@)),
        Err(e) => Err(e),
    }
}

/// What reading a list of compounds says, with the fields taken by their contents.
pub open spec fn compounds_of(r: Result<Vec<Vec<Field<'_>>>, Error>) -> Result<
    Seq<Seq<FieldView>>,
    Error,
> {
    match r {
        Ok(compounds) => Ok(list_views(compounds@)),
        Err(e) => Err(e),
    }
}

/// The bytes of a payload.
fn payload_bytes<'f>(payload: &'f Cow<'_, [u8]>) -> (r: &'f [u8])
    ensures
        r@ == payload@,
{
    match payload {
        Cow::Borrowed(bytes) => bytes,
        Cow::Owned(bytes) => bytes.as_slice(),
    }
}

impl<'a> Field<'a> {
    pub fn list(name: &'a [u8], payload: Vec<u8>) -> (r: Self)
        ensures
            r@ == (FieldView { tag: TAG_LIST, name: name@, payload: payload@ }),
    {
        Self { tag: TAG_LIST, name, payload: Cow::Owned(payload) }
    }

    pub fn byte(name: &'a [u8], value: u8) -> (r: Self)
        ensures
            r@ == (FieldView { tag: TAG_BYTE, name: name@, payload: seq![value] }),
    {
        Self { tag: TAG_BYTE, name, payload: Cow::Owned(vec![value]) }
    }
}

/// A name: two bytes of length, then that many bytes.
pub open spec fn read_name(d: Seq<u8>, p: int) -> (Result<Seq<u8>, Error>, int) {
    match wire::read_u16(d, p) {
        (Ok(n), q) => wire::take(d, q, n as int),
        (Err(e), q) => (Err(e), q),
    }
}

/// The named values of a compound, up to and including its end marker.
/// A payload never ends before it starts.
pub open spec fn read_entries(d: Seq<u8>, p: int) -> (Result<Seq<FieldView>, Error>, int)
    decreases d.len() - p,
{
    match wire::read_u8(d, p) {
        (Ok(tag), q) => if tag == 0 {
            (Ok(Seq::empty()), q)
        } else {
            match read_name(d, q) {
                (Ok(name), q2) => match past_payload(d, q2, tag, 1) {
                    (Ok(()), q3) => if p < q3 <= d.len() {
                        let field = FieldView { tag, name, payload: d.subrange(q2, q3) };
                        match read_entries(d, q3) {
                            (Ok(rest), q4) => (Ok(seq![field] + rest), q4),
                            (Err(e), q4) => (Err(e), q4),
                        }
                    } else {
                        (Err(Error::Eof), q3)
                    },
                    (Err(e), q3) => (Err(e), q3),
                },
                (Err(e), q2) => (Err(e), q2),
            }
        },
        (Err(e), q) => (Err(e), q),
    }
}

/// What a read comes to once its buffer has to be used up.
pub open spec fn all_read<T>(d: Seq<u8>, step: (Result<T, Error>, int)) -> Result<T, Error> {
    match step {
        (Ok(v), q) => if q == d.len() {
            Ok(v)
        } else {
            Err(Error::Trailing((d.len() - q) as usize))
        },
        (Err(e), _) => Err(e),
    }
}

/// The fields of a network-form compound.
pub open spec fn parsed_compound(d: Seq<u8>) -> Result<Seq<FieldView>, Error> {
    match wire::read_u8(d, 0) {
        (Ok(tag), q) => if tag == 0 {
            all_read(d, (Ok(Seq::<FieldView>::empty()), q))
        } else if tag == 10 {
            all_read(d, read_entries(d, q))
        } else {
            Err(Error::Unexpected("nbt root is not a compound"))
        },
        (Err(e), _) => Err(e),
    }
}

/// The fields of `n` compounds that follow each other.
pub open spec fn read_compounds(d: Seq<u8>, p: int, n: nat) -> (
    Result<Seq<Seq<FieldView>>, Error>,
    int,
)
    decreases n,
{
    if n == 0 {
        (Ok(Seq::empty()), p)
    } else {
        match read_entries(d, p) {
            (Ok(fields), q) => match read_compounds(d, q, (n - 1) as nat) {
                (Ok(rest), q2) => (Ok(seq![fields] + rest), q2),
                (Err(e), q2) => (Err(e), q2),
            },
            (Err(e), q) => (Err(e), q),
        }
    }
}

/// Passes over the items of a list that are no compounds. Items that are end markers have no
/// payload.
pub open spec fn past_others(d: Seq<u8>, p: int, element: u8, n: nat) -> (Result<(), Error>, int) {
    if element == 0 {
        (Ok(()), p)
    } else {
        past_items(d, p, element, n, 1)
    }
}

/// The compounds of a list payload; a list of anything else reads as empty.
pub open spec fn parsed_list(d: Seq<u8>) -> Result<Seq<Seq<FieldView>>, Error> {
    match wire::read_u8(d, 0) {
        (Ok(element), q) => match read_array_len(d, q) {
            (Ok(n), q2) => if element == 10 {
                all_read(d, read_compounds(d, q2, n as nat))
            } else {
                match past_others(d, q2, element, n as nat) {
                    (Ok(()), q3) => all_read(d, (Ok(Seq::<Seq<FieldView>>::empty()), q3)),
                    (Err(e), _) => Err(e),
                }
            },
            (Err(e), _) => Err(e),
        },
        (Err(e), _) => Err(e),
    }
}

/// One field as it is written; a name keeps the low 16 bits of its length.
pub open spec fn field_bytes(f: FieldView) -> Seq<u8> {
    seq![f.tag] + wire::to_be(f.name.len() % 0x1_0000, 2) + f.name + f.payload
}

/// The fields of a compound as they are written, with the end marker.
pub open spec fn entries_bytes(fields: Seq<FieldView>) -> Seq<u8>
    decreases fields.len(),
{
    if fields.len() == 0 {
        seq![0u8]
    } else {
        field_bytes(fields[0]) + entries_bytes(fields.skip(1))
    }
}

/// A network-form compound.
pub open spec fn compound_bytes(fields: Seq<FieldView>) -> Seq<u8> {
    seq![10u8] + entries_bytes(fields)
}

/// Byte strings that follow each other, each without its first byte.
pub open spec fn untagged(compounds: Seq<Seq<u8>>) -> Seq<u8>
    decreases compounds.len(),
{
    if compounds.len() == 0 {
        Seq::empty()
    } else {
        compounds[0].skip(1) + untagged(compounds.skip(1))
    }
}

/// A list payload of the given compounds.
pub open spec fn list_bytes(compounds: Seq<Seq<u8>>) -> Seq<u8> {
    seq![10u8] + wire::to_be(compounds.len() % 0x1_0000_0000, 4) + untagged(compounds)
}

/// Reads a compound's payload up to and including its `TAG_End`.
pub fn read_fields<'a>(r: &mut Reader<'a>) -> (res: Result<Vec<Field<'a>>, Error>)
    requires
        old(r).wf(),
    ensures
        final(r).wf(),
        final(r).data() == old(r).data(),
        (fields_of(res), final(r).at()) == read_entries(old(r).data(), old(r).at()),
{
    let mut fields: Vec<Field<'a>> = Vec::new();
    assert(wire::after(views(fields@), read_entries(r.data(), r.at())) =~= read_entries(
        r.data(),
        r.at(),
    )) by {
        assert(forall|s: Seq<FieldView>| views(fields@) + s =~= s);
    }
    loop
        invariant
            r.wf(),
            r.data() == old(r).data(),
            wire::after(views(fields@), read_entries(r.data(), r.at())) == read_entries(
                old(r).data(),
                old(r).at(),
            ),
        decreases r.data().len() - r.at(),
    {
        let ghost before = views(fields@);
        let tag: u8 = r.u8()?;
        if tag == 0 {
            assert(before + Seq::<FieldView>::empty() =~= before);
            return Ok(fields);
        }
        let name_len: u16 = r.u16()?;
        let name = r.take(name_len as usize)?;
        let start: usize = r.position();
        skip_payload(r, tag, 1)?;
        let payload = r.since(start)?;
        let ghost field = FieldView { tag, name: name@, payload: payload@ };
        fields.push(Field { tag, name, payload: Cow::Borrowed(payload) });
        proof {
            assert(views(fields@) =~= before.push(field));
            assert(forall|s: Seq<FieldView>| before + (seq![field] + s) =~= before.push(field) + s);
        }
    }
}

/// Splits one network-form compound into its fields. A lone `TAG_End`, which is
/// how the protocol writes "no tag", reads as an empty compound.
pub fn read_compound(tag: &[u8]) -> (res: Result<Vec<Field<'_>>, Error>)
    ensures
        fields_of(res) == parsed_compound(tag@),
{
    let mut r = Reader::new(tag);
    let root: u8 = r.u8()?;
    let fields = if root == 0 {
        Vec::new()
    } else if root == TAG_COMPOUND {
        read_fields(&mut r)?
    } else {
        return Err(Error::Unexpected("nbt root is not a compound"));
    };
    assert(views(Seq::<Field<'_>>::empty()) =~= Seq::<FieldView>::empty());
    r.expect_fully_read()?;
    Ok(fields)
}

/// Appends the low `len` bytes of `n`, most significant first.
fn push_be(out: &mut Vec<u8>, n: u64, len: usize)
    requires
        len <= 8,
    ensures
        final(out)@ == old(out)@ + wire::to_be(n as nat, len as nat),
    decreases len,
{
    if len > 0 {
        push_be(out, n / 256, len - 1);
        out.push((n % 256) as u8);
    }
    assert(out@ =~= old(out)@ + wire::to_be(n as nat, len as nat));
}

/// The inverse of [`read_compound`].
pub fn write_compound(fields: &[Field<'_>]) -> (r: Vec<u8>)
    ensures
        r@ == compound_bytes(views(fields@)),
{
    let mut out: Vec<u8> = vec![TAG_COMPOUND];
    write_fields(&mut out, fields);
    assert(out@ =~= compound_bytes(views(fields@)));
    out
}

fn write_fields(out: &mut Vec<u8>, fields: &[Field<'_>])
    ensures
        final(out)@ == old(out)@ + entries_bytes(views(fields@)),
{
    let ghost all = views(fields@);
    assert(all.skip(0) =~= all);
    let mut i: usize = 0;
    while i < fields.len()
        invariant
            i <= fields.len(),
            all == views(fields@),
            out@ + entries_bytes(all.skip(i as int)) == old(out)@ + entries_bytes(all),
        decreases fields.len() - i,
    {
        let field = &fields[i];
        let ghost before = out@;
        out.push(field.tag);
        push_be(out, field.name.len() as u64 % 0x1_0000, 2);
        out.extend_from_slice(field.name);
        out.extend_from_slice(payload_bytes(&field.payload));
        i += 1;
        proof {
            let f = all[i - 1];
            assert(all.skip(i - 1)[0] == f);
            assert(all.skip(i - 1).skip(1) =~= all.skip(i as int));
            assert(out@ =~= before + field_bytes(f));
            assert(before + (field_bytes(f) + entries_bytes(all.skip(i as int))) =~= out@
                + entries_bytes(all.skip(i as int)));
        }
    }
    out.push(0);
    assert(out@ =~= old(out)@ + entries_bytes(all));
}

fn skip_others(r: &mut Reader<'_>, element: u8, len: usize) -> (res: Result<(), Error>)
    requires
        old(r).wf(),
    ensures
        final(r).wf(),
        final(r).data() == old(r).data(),
        (res, final(r).at()) == past_others(old(r).data(), old(r).at(), element, len as nat),
{
    if element == 0 {
        return Ok(());
    }
    let mut i: usize = 0;
    while i < len
        invariant
            i <= len,
            r.wf(),
            r.data() == old(r).data(),
            past_items(r.data(), r.at(), element, (len - i) as nat, 1) == past_items(
                old(r).data(),
                old(r).at(),
                element,
                len as nat,
                1,
            ),
        decreases len - i,
    {
        skip_payload(r, element, 1)?;
        i += 1;
    }
    Ok(())
}

/// Splits a list payload into its compounds. A list of anything else holds no
/// entities, so it reads as empty.
pub fn read_compound_list(payload: &[u8]) -> (res: Result<Vec<Vec<Field<'_>>>, Error>)
    ensures
        compounds_of(res) == parsed_list(payload@),
{
    let mut r = Reader::new(payload);
    let element: u8 = r.u8()?;
    let len: usize = array_len(&mut r)?;
    let mut compounds: Vec<Vec<Field<'_>>> = Vec::new();
    assert(list_views(compounds@) =~= Seq::<Seq<FieldView>>::empty());
    if element == TAG_COMPOUND {
        let ghost p = r.at();
        assert(forall|s: Seq<Seq<FieldView>>| list_views(compounds@) + s =~= s);
        let mut i: usize = 0;
        while i < len
            invariant
                i <= len,
                r.wf(),
                r.data() == payload@,
                element == 10,
                wire::after(
                    list_views(compounds@),
                    read_compounds(payload@, r.at(), (len - i) as nat),
                ) == read_compounds(payload@, p, len as nat),
                parsed_list(payload@) == all_read(
                    payload@,
                    read_compounds(payload@, p, len as nat),
                ),
            decreases len - i,
        {
            let ghost before = list_views(compounds@);
            let fields = read_fields(&mut r)?;
            let ghost fresh = views(fields@);
            compounds.push(fields);
            i += 1;
            proof {
                assert(list_views(compounds@) =~= before.push(fresh));
                assert(forall|s: Seq<Seq<FieldView>>|
                    before + (seq![fresh] + s) =~= before.push(fresh) + s);
            }
        }
        assert(list_views(compounds@) + Seq::<Seq<FieldView>>::empty() =~= list_views(compounds@));
    } else {
        skip_others(&mut r, element, len)?;
    }
    r.expect_fully_read()?;
    Ok(compounds)
}

/// The contents of byte strings.
pub open spec fn contents(parts: Seq<Vec<u8>>) -> Seq<Seq<u8>> {
    Seq::new(parts.len(), |i: int| parts[i]@)
}

/// A list payload of the given compounds, each as [`write_compound`] produces it.
pub fn compound_list(compounds: &[Vec<u8>]) -> (r: Vec<u8>)
    requires
        forall|i: int| 0 <= i < compounds@.len() ==> (#[trigger] compounds@[i])@.len() > 0,
    ensures
        r@ == list_bytes(contents(compounds@)),
{
    let mut out: Vec<u8> = vec![TAG_COMPOUND];
    push_be(&mut out, compounds.len() as u64 % 0x1_0000_0000, 4);
    let ghost head = out@;
    let ghost all = contents(compounds@);
    assert(all.skip(0) =~= all);
    let mut i: usize = 0;
    while i < compounds.len()
        invariant
            i <= compounds.len(),
            all == contents(compounds@),
            forall|j: int| 0 <= j < compounds@.len() ==> (#[trigger] compounds@[j])@.len() > 0,
            out@ + untagged(all.skip(i as int)) == head + untagged(all),
        decreases compounds.len() - i,
    {
        let ghost before = out@;
        let compound = &compounds[i];
        // List elements carry no type byte of their own.
        out.extend_from_slice(slice_subrange(compound.as_slice(), 1, compound.len()));
        i += 1;
        proof {
            let c = all[i - 1];
            assert(all.skip(i - 1)[0] == c);
            assert(all.skip(i - 1).skip(1) =~= all.skip(i as int));
            assert(out@ =~= before + c.skip(1));
            assert(before + (c.skip(1) + untagged(all.skip(i as int))) =~= out@ + untagged(
                all.skip(i as int),
            ));
        }
    }
    assert(out@ =~= list_bytes(all));
    out
}

/// The bytes of fixed-width numbers that follow each other, big-endian.
pub open spec fn numbers(values: Seq<u64>, width: nat) -> Seq<u8>
    decreases values.len(),
{
    if values.len() == 0 {
        Seq::empty()
    } else {
        numbers(values.drop_last(), width) + wire::to_be(values.last() as nat, width)
    }
}

/// A list payload of doubles, the shape of `Pos`, given as their bit patterns.
pub fn doubles(values: &[u64]) -> (r: Vec<u8>)
    ensures
        r@ == seq![6u8] + wire::to_be(values@.len() % 0x1_0000_0000, 4) + numbers(values@, 8),
{
    let mut out: Vec<u8> = vec![6];
    push_be(&mut out, values.len() as u64 % 0x1_0000_0000, 4);
    let ghost head = out@;
    assert(values@.take(0) =~= Seq::<u64>::empty());
    let mut i: usize = 0;
    while i < values.len()
        invariant
            i <= values.len(),
            out@ =~= head + numbers(values@.take(i as int), 8),
        decreases values.len() - i,
    {
        push_be(&mut out, values[i], 8);
        assert(values@.take(i + 1).drop_last() =~= values@.take(i as int));
        i += 1;
    }
    assert(values@.take(i as int) =~= values@);
    out
}

/// The same numbers, held wider.
pub open spec fn widened(values: Seq<u32>) -> Seq<u64> {
    Seq::new(values.len(), |i: int| values[i] as u64)
}

/// A list payload of floats, the shape of `Rotation`, given as their bit patterns.
pub fn floats(values: &[u32]) -> (r: Vec<u8>)
    ensures
        r@ == seq![5u8] + wire::to_be(values@.len() % 0x1_0000_0000, 4) + numbers(
            widened(values@),
            4,
        ),
{
    let mut out: Vec<u8> = vec![5];
    push_be(&mut out, values.len() as u64 % 0x1_0000_0000, 4);
    let ghost head = out@;
    let ghost wide = widened(values@);
    assert(wide.take(0) =~= Seq::<u64>::empty());
    let mut i: usize = 0;
    while i < values.len()
        invariant
            i <= values.len(),
            wide == widened(values@),
            out@ =~= head + numbers(wide.take(i as int), 4),
        decreases values.len() - i,
    {
        push_be(&mut out, values[i] as u64, 4);
        assert(wide.take(i + 1).drop_last() =~= wide.take(i as int));
        i += 1;
    }
    assert(wide.take(i as int) =~= wide);
    out
}

/// The first field called `name`, from index `from` on.
pub open spec fn position(fields: Seq<FieldView>, name: Seq<u8>, from: int) -> Option<int>
    decreases fields.len() - from,
{
    if from >= fields.len() {
        None
    } else if fields[from].name == name {
        Some(from)
    } else {
        position(fields, name, from + 1)
    }
}

/// The first field called `name` that is of type `tag`, from index `from` on.
pub open spec fn typed_position(fields: Seq<FieldView>, name: Seq<u8>, tag: u8, from: int) -> Option<
    int,
>
    decreases fields.len() - from,
{
    if from >= fields.len() {
        None
    } else if fields[from].name == name && fields[from].tag == tag {
        Some(from)
    } else {
        typed_position(fields, name, tag, from + 1)
    }
}

/// The fields with `field` in place of the one of the same name, or added to them.
pub open spec fn with_field(fields: Seq<FieldView>, field: FieldView) -> Seq<FieldView> {
    match position(fields, field.name, 0) {
        Some(i) => fields.update(i, field),
        None => fields.push(field),
    }
}

pub proof fn lemma_position(fields: Seq<FieldView>, name: Seq<u8>, from: int)
    requires
        0 <= from,
    ensures
        match position(fields, name, from) {
            Some(i) => from <= i < fields.len() && fields[i].name == name && forall|j: int|
                from <= j < i ==> (#[trigger] fields[j]).name != name,
            None => forall|j: int| from <= j < fields.len() ==> (#[trigger] fields[j]).name != name,
        },
    decreases fields.len() - from,
{
    if from < fields.len() && fields[from].name != name {
        lemma_position(fields, name, from + 1);
    }
}

fn find(fields: &[Field<'_>], name: &[u8]) -> (r: Option<usize>)
    ensures
        match (r, position(views(fields@), name@, 0)) {
            (Some(i), Some(j)) => i == j && i < fields@.len(),
            (None, None) => true,
            _ => false,
        },
{
    let mut i: usize = 0;
    while i < fields.len()
        invariant
            i <= fields.len(),
            position(views(fields@), name@, i as int) == position(views(fields@), name@, 0),
        decreases fields.len() - i,
    {
        if text::bytes_equal(fields[i].name, name) {
            return Some(i);
        }
        i += 1;
    }
    None
}

fn find_typed(fields: &[Field<'_>], name: &[u8], tag: u8) -> (r: Option<usize>)
    ensures
        match (r, typed_position(views(fields@), name@, tag, 0)) {
            (Some(i), Some(j)) => i == j && i < fields@.len(),
            (None, None) => true,
            _ => false,
        },
{
    let mut i: usize = 0;
    while i < fields.len()
        invariant
            i <= fields.len(),
            typed_position(views(fields@), name@, tag, i as int) == typed_position(
                views(fields@),
                name@,
                tag,
                0,
            ),
        decreases fields.len() - i,
    {
        if fields[i].tag == tag && text::bytes_equal(fields[i].name, name) {
            return Some(i);
        }
        i += 1;
    }
    None
}

/// Replaces the field of the same name, or adds it.
pub fn put<'a>(fields: &mut Vec<Field<'a>>, field: Field<'a>)
    ensures
        views(final(fields)@) == with_field(views(old(fields)@), field@),
{
    match find(fields.as_slice(), field.name) {
        Some(i) => {
            fields[i] = field;
        },
        None => fields.push(field),
    }
    assert(views(fields@) =~= with_field(views(old(fields)@), field@));
}

/// The value of a byte field, if the compound has one by that name.
pub fn byte(fields: &[Field<'_>], name: &[u8]) -> (r: Option<u8>)
    ensures
        r == (match typed_position(views(fields@), name@, TAG_BYTE, 0) {
            Some(i) => if views(fields@)[i].payload.len() > 0 {
                Some(views(fields@)[i].payload[0])
            } else {
                None
            },
            None => None,
        }),
{
    let i: usize = find_typed(fields, name, TAG_BYTE)?;
    let payload = payload_bytes(&fields[i].payload);
    if payload.len() > 0 {
        Some(payload[0])
    } else {
        None
    }
}

/// What a string field holds: well-formed UTF-8 after two bytes of length.
pub open spec fn string_value(payload: Seq<u8>) -> Option<Seq<char>> {
    if payload.len() >= 2 && vstd::utf8::valid_utf8(payload.skip(2)) {
        Some(vstd::utf8::decode_utf8(payload.skip(2)))
    } else {
        None
    }
}

/// The value of a string field, if the compound has one by that name.
pub fn string<'f>(fields: &'f [Field<'_>], name: &[u8]) -> (r: Option<&'f str>)
    ensures
        (match r {
            Some(s) => Some(s@),
            None => None::<Seq<char>>,
        }) == (match typed_position(views(fields@), name@, TAG_STRING, 0) {
            Some(i) => string_value(views(fields@)[i].payload),
            None => None,
        }),
{
    let i: usize = find_typed(fields, name, TAG_STRING)?;
    let payload = payload_bytes(&fields[i].payload);
    if payload.len() < 2 {
        return None;
    }
    // Modified UTF-8 only differs from UTF-8 for NUL and astral characters,
    // neither of which appears in the ids this is used for.
    let bytes = slice_subrange(payload, 2, payload.len());
    assert(bytes@ =~= payload@.skip(2));
    match core::str::from_utf8(bytes) {
        Ok(s) => {
            proof {
                vstd::utf8::encode_utf8_decode_utf8(s@);
            }
            Some(s)
        },
        Err(_) => None,
    }
}

/// Root keys a client may set on an entity. Anything else a saved entity carries —
/// health, inventories, attributes, AI state — is dropped, so the entity tools
/// cannot be used to hand those out.
pub open spec fn allowed_entity_keys() -> Seq<&'static str> {
    seq![
        "id",
        "Pos",
        "Rotation",
        "Invulnerable",
        "CustomName",
        "CustomNameVisible",
        "Silent",
        "NoGravity",
        "Glowing",
        "Tags",
        "Passengers",
        "ArmorItems",
        "HandItems",
        "Small",
        "ShowArms",
        "DisabledSlots",
        "NoBasePlate",
        "Marker",
        "Pose",
        "data",
        "transformation",
        "interpolation_duration",
        "start_interpolation",
        "teleport_duration",
        "billboard",
        "view_range",
        "shadow_radius",
        "shadow_strength",
        "width",
        "height",
        "glow_color_override",
        "brightness",
        "line_width",
        "text_opacity",
        "background",
        "shadow",
        "see_through",
        "default_background",
        "alignment",
        "text",
        "block_state",
        "item",
        "item_display",
    ]
}

/// Whether a client may set the root key `name`.
pub open spec fn allowed_key(name: Seq<u8>) -> bool {
    exists|i: int|
        0 <= i < allowed_entity_keys().len() && #[trigger] allowed_entity_keys()[i].spec_bytes()
            == name
}

/// The key that holds an entity's riders.
pub open spec fn passengers() -> Seq<u8> {
    "Passengers".spec_bytes()
}

fn entity_keys() -> (r: Vec<&'static str>)
    ensures
        r@ == allowed_entity_keys(),
{
    let keys: Vec<&'static str> = vec![
        "id",
        "Pos",
        "Rotation",
        "Invulnerable",
        "CustomName",
        "CustomNameVisible",
        "Silent",
        "NoGravity",
        "Glowing",
        "Tags",
        "Passengers",
        "ArmorItems",
        "HandItems",
        "Small",
        "ShowArms",
        "DisabledSlots",
        "NoBasePlate",
        "Marker",
        "Pose",
        "data",
        "transformation",
        "interpolation_duration",
        "start_interpolation",
        "teleport_duration",
        "billboard",
        "view_range",
        "shadow_radius",
        "shadow_strength",
        "width",
        "height",
        "glow_color_override",
        "brightness",
        "line_width",
        "text_opacity",
        "background",
        "shadow",
        "see_through",
        "default_background",
        "alignment",
        "text",
        "block_state",
        "item",
        "item_display",
    ];
    assert(keys@ =~= allowed_entity_keys());
    keys
}

fn is_allowed(keys: &Vec<&'static str>, name: &[u8]) -> (r: bool)
    requires
        keys@ == allowed_entity_keys(),
    ensures
        r == allowed_key(name@),
{
    let mut i: usize = 0;
    while i < keys.len()
        invariant
            i <= keys.len(),
            keys@ == allowed_entity_keys(),
            forall|j: int| 0 <= j < i ==> (#[trigger] allowed_entity_keys()[j]).spec_bytes() != name@,
        decreases keys.len() - i,
    {
        if text::bytes_equal(keys[i].as_bytes(), name) {
            assert(allowed_entity_keys()[i as int].spec_bytes() == name@);
            return true;
        }
        i += 1;
    }
    false
}

/// How much there is in the fields: their payloads, and one more for each field.
pub open spec fn size(fields: Seq<FieldView>) -> nat
    decreases fields.len(),
{
    if fields.len() == 0 {
        0
    } else {
        fields[0].payload.len() + 1 + size(fields.skip(1))
    }
}

/// How much there is in the compounds, and one more for each compound.
pub open spec fn list_size(compounds: Seq<Seq<FieldView>>) -> nat
    decreases compounds.len(),
{
    if compounds.len() == 0 {
        0
    } else {
        size(compounds[0]) + 1 + list_size(compounds.skip(1))
    }
}

/// The fields of a compound take up less than the bytes they were read from.
pub proof fn lemma_entries_size(d: Seq<u8>, p: int)
    requires
        0 <= p,
    ensures
        match read_entries(d, p) {
            (Ok(fields), q) => p + size(fields) < q <= d.len(),
            _ => true,
        },
    decreases d.len() - p,
{
    if p < d.len() && d[p] != 0 {
        match read_name(d, p + 1) {
            (Ok(name), q2) => match past_payload(d, q2, d[p], 1) {
                (Ok(()), q3) => if p < q3 <= d.len() {
                    lemma_past_forward(d, q2, d[p], 1);
                    lemma_entries_size(d, q3);
                    match read_entries(d, q3) {
                        (Ok(rest), q4) => {
                            let field = FieldView {
                                tag: d[p],
                                name,
                                payload: d.subrange(q2, q3),
                            };
                            assert((seq![field] + rest).skip(1) =~= rest);
                        },
                        _ => {},
                    }
                },
                _ => {},
            },
            _ => {},
        }
    }
}

/// A payload ends inside the buffer, and not before it starts.
pub proof fn lemma_past_forward(d: Seq<u8>, p: int, tag: u8, depth: nat)
    requires
        0 <= p <= d.len(),
    ensures
        p <= past_payload(d, p, tag, depth).1 <= d.len(),
    decreases levels_left(depth), 0nat, 0int,
{
    if depth <= 512 {
        if tag == 9 {
            match wire::read_u8(d, p) {
                (Ok(element), q) => match read_array_len(d, q) {
                    (Ok(n), q2) => if element != 0 {
                        lemma_items_forward(d, q2, element, n as nat, depth + 1);
                    },
                    _ => {},
                },
                _ => {},
            }
        } else if tag == 10 {
            lemma_past_entries_forward(d, p, depth + 1);
        }
    }
}

proof fn lemma_items_forward(d: Seq<u8>, p: int, element: u8, n: nat, depth: nat)
    requires
        0 <= p <= d.len(),
    ensures
        p <= past_items(d, p, element, n, depth).1 <= d.len(),
    decreases levels_left(depth), 1nat, n as int,
{
    if n > 0 {
        lemma_past_forward(d, p, element, depth);
        match past_payload(d, p, element, depth) {
            (Ok(()), q) => lemma_items_forward(d, q, element, (n - 1) as nat, depth),
            _ => {},
        }
    }
}

proof fn lemma_past_entries_forward(d: Seq<u8>, p: int, depth: nat)
    requires
        0 <= p <= d.len(),
    ensures
        p <= past_entries(d, p, depth).1 <= d.len(),
    decreases levels_left(depth), 1nat, d.len() - p,
{
    if p < d.len() && d[p] != 0 {
        match past_text(d, p + 1) {
            (Ok(()), q2) => {
                lemma_past_forward(d, q2, d[p], depth);
                match past_payload(d, q2, d[p], depth) {
                    (Ok(()), q3) => if p < q3 <= d.len() {
                        lemma_past_entries_forward(d, q3, depth);
                    },
                    _ => {},
                }
            },
            _ => {},
        }
    }
}

proof fn lemma_compounds_size(d: Seq<u8>, p: int, n: nat)
    requires
        0 <= p <= d.len(),
    ensures
        match read_compounds(d, p, n) {
            (Ok(compounds), q) => p + list_size(compounds) <= q <= d.len(),
            _ => true,
        },
    decreases n,
{
    if n > 0 {
        lemma_entries_size(d, p);
        match read_entries(d, p) {
            (Ok(fields), q) => {
                lemma_compounds_size(d, q, (n - 1) as nat);
                match read_compounds(d, q, (n - 1) as nat) {
                    (Ok(rest), q2) => {
                        assert((seq![fields] + rest).skip(1) =~= rest);
                    },
                    _ => {},
                }
            },
            _ => {},
        }
    }
}

/// The compounds of a list take up less than its payload.
pub proof fn lemma_list_size(payload: Seq<u8>)
    ensures
        parsed_list(payload) matches Ok(compounds) ==> list_size(compounds) < payload.len(),
{
    match wire::read_u8(payload, 0) {
        (Ok(element), q) => match read_array_len(payload, q) {
            (Ok(n), q2) => lemma_compounds_size(payload, q2, n as nat),
            _ => {},
        },
        _ => {},
    }
}

/// The fields that a client may set, in their order.
pub open spec fn kept(fields: Seq<FieldView>) -> Seq<FieldView> {
    fields.filter(|f: FieldView| may_set(f))
}

/// Whether a client may set this field: its key is allowed, and riders come as a list.
pub open spec fn may_set(f: FieldView) -> bool {
    allowed_key(f.name) && (f.name != passengers() || f.tag == TAG_LIST)
}

proof fn lemma_size_push(fields: Seq<FieldView>, f: FieldView)
    ensures
        size(fields.push(f)) == size(fields) + f.payload.len() + 1,
    decreases fields.len(),
{
    reveal_with_fuel(size, 2);
    if fields.len() > 0 {
        assert(fields.push(f).skip(1) =~= fields.skip(1).push(f));
        lemma_size_push(fields.skip(1), f);
    }
}

/// Dropping fields leaves no more than there was.
pub proof fn lemma_kept_size(fields: Seq<FieldView>)
    ensures
        size(kept(fields)) <= size(fields),
    decreases fields.len(),
{
    reveal(Seq::filter);
    if fields.len() > 0 {
        lemma_kept_size(fields.drop_last());
        assert(fields =~= fields.drop_last().push(fields.last()));
        lemma_size_push(fields.drop_last(), fields.last());
        lemma_size_push(kept(fields.drop_last()), fields.last());
    }
}

/// What sanitizing an entity comes to: the outcome, and the fields it leaves behind.
pub open spec fn sanitized(fields: Seq<FieldView>) -> (Result<(), Error>, Seq<FieldView>)
    decreases size(fields), 2nat,
{
    proof {
        lemma_kept_size(fields);
    }
    with_clean_riders(kept(fields))
}

/// The fields with every list of riders sanitized. The first list that cannot be read
/// stops the walk, and it and what follows stay as they are.
pub open spec fn with_clean_riders(fields: Seq<FieldView>) -> (Result<(), Error>, Seq<FieldView>)
    decreases size(fields), 1nat,
{
    if fields.len() == 0 {
        (Ok(()), fields)
    } else {
        let f = fields[0];
        if f.name == passengers() {
            match clean_riders(f.payload) {
                Ok(payload) => {
                    let (outcome, rest) = with_clean_riders(fields.skip(1));
                    (outcome, seq![FieldView { payload, ..f }] + rest)
                },
                Err(e) => (Err(e), fields),
            }
        } else {
            let (outcome, rest) = with_clean_riders(fields.skip(1));
            (outcome, seq![f] + rest)
        }
    }
}

/// A list of riders with each rider sanitized.
pub open spec fn clean_riders(payload: Seq<u8>) -> Result<Seq<u8>, Error>
    decreases payload.len(), 1nat,
{
    proof {
        lemma_list_size(payload);
    }
    match parsed_list(payload) {
        Ok(riders) => match clean_all(riders) {
            Ok(compounds) => Ok(list_bytes(compounds)),
            Err(e) => Err(e),
        },
        Err(e) => Err(e),
    }
}

/// The riders, each sanitized and written.
pub open spec fn clean_all(riders: Seq<Seq<FieldView>>) -> Result<Seq<Seq<u8>>, Error>
    decreases list_size(riders), 0nat,
{
    if riders.len() == 0 {
        Ok(Seq::empty())
    } else {
        match sanitized(riders[0]) {
            (Ok(()), fields) => match clean_all(riders.skip(1)) {
                Ok(rest) => Ok(seq![compound_bytes(fields)] + rest),
                Err(e) => Err(e),
            },
            (Err(e), _) => Err(e),
        }
    }
}

/// Puts what was cleaned so far in front of what is still to come.
spec fn after_clean(done: Seq<FieldView>, step: (Result<(), Error>, Seq<FieldView>)) -> (
    Result<(), Error>,
    Seq<FieldView>,
) {
    (step.0, done + step.1)
}

/// Puts the riders written so far in front of what is still to come.
spec fn after_riders(
    done: Seq<Seq<u8>>,
    step: Result<Seq<Seq<u8>>, Error>,
) -> Result<Seq<Seq<u8>>, Error> {
    match step {
        Ok(rest) => Ok(done + rest),
        Err(e) => Err(e),
    }
}

/// Drops every field a client may not set, from the entity and from everything
/// riding it.
pub fn sanitize_entity(fields: &mut Vec<Field<'_>>) -> (res: Result<(), Error>)
    ensures
        (res, views(final(fields)@)) == sanitized(views(old(fields)@)),
    decreases size(views(old(fields)@)), 1nat,
{
    let ghost all = views(fields@);
    keep_allowed(fields);
    let ghost kept_fields = views(fields@);
    proof {
        lemma_kept_size(all);
        assert(kept_fields.skip(0) =~= kept_fields);
        assert(kept_fields.take(0) + with_clean_riders(kept_fields).1
            =~= with_clean_riders(kept_fields).1);
    }
    let mut i: usize = 0;
    while i < fields.len()
        invariant
            i <= fields.len(),
            fields.len() == kept_fields.len(),
            size(kept_fields) <= size(all),
            all == views(old(fields)@),
            sanitized(all) == with_clean_riders(kept_fields),
            views(fields@).skip(i as int) == kept_fields.skip(i as int),
            after_clean(
                views(fields@).take(i as int),
                with_clean_riders(kept_fields.skip(i as int)),
            ) == with_clean_riders(kept_fields),
        decreases fields.len() - i,
    {
        let ghost before = views(fields@);
        let ghost left = kept_fields.skip(i as int);
        let ghost f = fields@[i as int]@;
        proof {
            lemma_size_part(kept_fields, i as int);
            assert(before.skip(i as int)[0] == f);
            assert(left.skip(1) =~= kept_fields.skip(i + 1));
            assert(before.skip(i + 1) =~= left.skip(1));
            assert(before.take(i as int) + left =~= before);
        }
        if text::bytes_equal(fields[i].name, "Passengers".as_bytes()) {
            let payload = sanitize_riders(payload_bytes(&fields[i].payload))?;
            fields[i].payload = Cow::Owned(payload);
        }
        proof {
            let now = views(fields@)[i as int];
            assert(views(fields@).take(i + 1) =~= before.take(i as int).push(now));
            assert(views(fields@).skip(i + 1) =~= before.skip(i + 1));
            let rest = with_clean_riders(left.skip(1)).1;
            assert(before.take(i as int) + (seq![now] + rest) =~= before.take(i as int).push(now)
                + rest);
        }
        i += 1;
    }
    proof {
        assert(views(fields@).take(i as int) + Seq::<FieldView>::empty() =~= views(fields@));
    }
    Ok(())
}

/// Drops the fields that a client may not set, and keeps the others in their order.
fn keep_allowed(fields: &mut Vec<Field<'_>>)
    ensures
        views(final(fields)@) == kept(views(old(fields)@)),
{
    let keys = entity_keys();
    let mut all = Vec::new();
    std::mem::swap(fields, &mut all);
    let ghost from = views(all@);
    assert(views(fields@) =~= kept(from.take(0))) by {
        reveal(Seq::filter);
    }
    for field in it: all
        invariant
            from == views(it.seq()),
            keys@ == allowed_entity_keys(),
            views(fields@) == kept(from.take(it.index() as int)),
    {
        let ghost i = it.index() as int;
        let ghost before = views(fields@);
        let ghost f = field@;
        proof {
            reveal(Seq::filter);
            assert(from.take(i + 1).drop_last() =~= from.take(i));
            assert(from.take(i + 1).last() == f);
        }
        let riders = text::bytes_equal(field.name, "Passengers".as_bytes());
        if is_allowed(&keys, field.name) && (!riders || field.tag == TAG_LIST) {
            fields.push(field);
            assert(views(fields@) =~= before.push(f));
        }
    }
    assert(from.take(from.len() as int) =~= from);
}

/// Sanitizes every rider of a list payload.
fn sanitize_riders(payload: &[u8]) -> (res: Result<Vec<u8>, Error>)
    ensures
        match (res, clean_riders(payload@)) {
            (Ok(bytes), Ok(clean)) => bytes@ == clean,
            (Err(e), Err(fault)) => e == fault,
            _ => false,
        },
    decreases payload@.len(), 0nat,
{
    let riders = read_compound_list(payload)?;
    let ghost all = list_views(riders@);
    let mut written: Vec<Vec<u8>> = Vec::new();
    proof {
        lemma_list_size(payload@);
        assert(all.skip(0) =~= all);
        assert(forall|s: Seq<Seq<u8>>| contents(written@) + s =~= s);
    }
    for rider in it: riders
        invariant
            all == list_views(it.seq()),
            list_size(all) < payload@.len(),
            parsed_list(payload@) == Ok::<Seq<Seq<FieldView>>, Error>(all),
            forall|k: int| 0 <= k < written@.len() ==> (#[trigger] written@[k])@.len() > 0,
            after_riders(contents(written@), clean_all(all.skip(it.index() as int))) == clean_all(all),
    {
        let ghost i = it.index() as int;
        let ghost before = contents(written@);
        proof {
            lemma_list_size_part(all, i);
            assert(all.skip(i)[0] == views(rider@));
            assert(all.skip(i).skip(1) =~= all.skip(i + 1));
        }
        let mut rider = rider;
        sanitize_entity(&mut rider)?;
        let bytes = write_compound(&rider);
        let ghost fresh = bytes@;
        written.push(bytes);
        proof {
            assert(contents(written@) =~= before.push(fresh));
            assert(forall|s: Seq<Seq<u8>>| before + (seq![fresh] + s) =~= before.push(fresh) + s);
        }
    }
    assert(contents(written@) + Seq::<Seq<u8>>::empty() =~= contents(written@));
    Ok(compound_list(&written))
}

proof fn lemma_size_part(fields: Seq<FieldView>, i: int)
    requires
        0 <= i < fields.len(),
    ensures
        fields[i].payload.len() + 1 + size(fields.skip(i + 1)) <= size(fields),
    decreases i,
{
    if i > 0 {
        lemma_size_part(fields.skip(1), i - 1);
        assert(fields.skip(1).skip(i) =~= fields.skip(i + 1));
    }
}

proof fn lemma_list_size_part(compounds: Seq<Seq<FieldView>>, i: int)
    requires
        0 <= i < compounds.len(),
    ensures
        size(compounds[i]) < list_size(compounds),
    decreases i,
{
    if i > 0 {
        lemma_list_size_part(compounds.skip(1), i - 1);
    }
}

/// What merging one change into the fields comes to: the outcome, and the fields it
/// leaves behind.
///
/// An empty compound removes the first field of its name, a compound meets a compound
/// key by key, and any other value takes the place of what was there.
pub open spec fn merged_one(left: Seq<FieldView>, f: FieldView) -> (
    Result<(), Error>,
    Seq<FieldView>,
)
    decreases f.payload.len() + 1, 0nat,
{
    let at = position(left, f.name, 0);
    if f.tag != TAG_COMPOUND {
        (Ok(()), with_field(left, f))
    } else {
        proof {
            lemma_entries_size(f.payload, 0);
        }
        match read_entries(f.payload, 0).0 {
            Err(e) => (Err(e), left),
            Ok(changes) => match at {
                None => (Ok(()), if changes.len() == 0 { left } else { left.push(f) }),
                Some(i) => if changes.len() == 0 {
                    (Ok(()), left.remove(i))
                } else if left[i].tag != TAG_COMPOUND {
                    (Ok(()), left.update(i, f))
                } else {
                    match read_entries(left[i].payload, 0).0 {
                        Err(e) => (Err(e), left),
                        Ok(child) => match merged(child, changes) {
                            (Err(e), _) => (Err(e), left),
                            (Ok(()), whole) => (
                                Ok(()),
                                left.update(
                                    i,
                                    FieldView { payload: entries_bytes(whole), ..left[i] },
                                ),
                            ),
                        },
                    }
                },
            },
        }
    }
}

/// What merging changes into the fields one after the other comes to. The first change
/// that cannot be read stops the merge, and what was merged before it stays.
pub open spec fn merged(left: Seq<FieldView>, right: Seq<FieldView>) -> (
    Result<(), Error>,
    Seq<FieldView>,
)
    decreases size(right), 1nat,
{
    if right.len() == 0 {
        (Ok(()), left)
    } else {
        match merged_one(left, right[0]) {
            (Ok(()), next) => merged(next, right.skip(1)),
            (Err(e), next) => (Err(e), next),
        }
    }
}

/// Merges `right` into `left` the way the entity editor expects: compounds
/// merge key by key, an empty compound removes the key, and any other value
/// replaces what was there.
///
/// Replacing a nested compound outright would reset what the edit left out — a
/// pose for one armor stand limb would put the other limbs back to default.
pub fn merge<'a>(left: &mut Vec<Field<'a>>, right: Vec<Field<'a>>) -> (res: Result<(), Error>)
    ensures
        (res, views(final(left)@)) == merged(views(old(left)@), views(right@)),
    decreases size(views(right@)), 1nat,
{
    let ghost changes = views(right@);
    assert(changes.skip(0) =~= changes);
    for field in it: right
        invariant
            changes == views(it.seq()),
            changes == views(right@),
            merged(views(left@), changes.skip(it.index() as int)) == merged(
                views(old(left)@),
                changes,
            ),
    {
        let ghost i = it.index() as int;
        proof {
            lemma_size_part(changes, i);
            assert(changes.skip(i)[0] == field@);
            assert(changes.skip(i).skip(1) =~= changes.skip(i + 1));
        }
        merge_one(left, field)?;
    }
    Ok(())
}

/// Merges one change into the fields.
fn merge_one<'a>(left: &mut Vec<Field<'a>>, field: Field<'a>) -> (res: Result<(), Error>)
    ensures
        (res, views(final(left)@)) == merged_one(views(old(left)@), field@),
    decreases field@.payload.len() + 1, 0nat,
{
    let ghost before = views(left@);
    let existing = find(left, field.name);
    proof {
        lemma_position(before, field@.name, 0);
        lemma_entries_size(field@.payload, 0);
    }
    if field.tag == TAG_COMPOUND {
        let changes = read_fields(&mut Reader::new(payload_bytes(&field.payload)))?;
        if changes.len() == 0 {
            if let Some(index) = existing {
                left.remove(index);
                assert(views(left@) =~= before.remove(index as int));
            }
            return Ok(());
        }
        if let Some(index) = existing {
            if left[index].tag == TAG_COMPOUND {
                let mut child = read_fields(
                    &mut Reader::new(payload_bytes(&left[index].payload)),
                )?;
                merge(&mut child, changes)?;
                let mut payload: Vec<u8> = Vec::new();
                write_fields(&mut payload, &child);
                let ghost whole = FieldView {
                    payload: entries_bytes(views(child@)),
                    ..before[index as int]
                };
                assert(payload@ =~= whole.payload);
                left[index].payload = Cow::Owned(payload);
                assert(views(left@) =~= before.update(index as int, whole));
                return Ok(());
            }
        }
    }
    let ghost f = field@;
    match existing {
        Some(index) => {
            left[index] = field;
            assert(views(left@) =~= before.update(index as int, f));
        },
        None => {
            left.push(field);
            assert(views(left@) =~= before.push(f));
        },
    }
    Ok(())
}

/// The only dictionary that block entities are compressed against. A different id means
/// the client speaks a newer protocol.
pub const SUPPORTED_DICTIONARY: u8 = 0;

/// Ceiling on one decompressed block entity. A shulker box of written books is
/// the realistic worst case and stays far below this.
pub const MAX_DECOMPRESSED: usize = 1024 * 1024;

/// A document with a named root, in the network form, where the root carries no name.
pub open spec fn unnamed(d: Seq<u8>) -> Option<Seq<u8>> {
    if d.len() < 3 || d[0] != TAG_COMPOUND {
        None
    } else {
        let name_len = d[1] as int * 256 + d[2] as int;
        if d.len() < 3 + name_len {
            None
        } else {
            Some(seq![TAG_COMPOUND] + d.skip(3 + name_len))
        }
    }
}

/// A document in the network form, with an empty name given to its root.
pub open spec fn named(d: Seq<u8>) -> Option<Seq<u8>> {
    if d.len() == 0 || d[0] != TAG_COMPOUND {
        None
    } else {
        Some(seq![TAG_COMPOUND, 0u8, 0u8] + d.skip(1))
    }
}

/// The bytes of a document, where there is one.
pub open spec fn document(d: Option<Vec<u8>>) -> Option<Seq<u8>> {
    match d {
        Some(bytes) => Some(bytes@),
        None => None,
    }
}

/// Rewrites a Java-written NBT document into the form the server reads.
///
/// `NbtIo.write` emits a tag id, a root *name* (always empty here), then the
/// payload. The server's reader expects the network form, where the root carries no
/// name at all, so the two name-length bytes have to come out.
pub fn to_unnamed_root(named: &[u8]) -> (r: Option<Vec<u8>>)
    ensures
        document(r) == unnamed(named@),
{
    if named.len() < 3 || named[0] != TAG_COMPOUND {
        return None;
    }
    let name_len: usize = named[1] as usize * 256 + named[2] as usize;
    if named.len() - 3 < name_len {
        return None;
    }
    let payload = slice_subrange(named, 3 + name_len, named.len());
    let mut out: Vec<u8> = Vec::with_capacity(payload.len());
    out.push(TAG_COMPOUND);
    out.extend_from_slice(payload);
    assert(out@ =~= seq![TAG_COMPOUND] + named@.skip(3 + name_len as int));
    Some(out)
}

/// The inverse of [`to_unnamed_root`], for NBT we send back to the client.
///
/// The server hands out the network form; `NbtIo.read` on the other side expects a
/// root name, so an empty one goes back in.
pub fn to_named_root(unnamed: &[u8]) -> (r: Option<Vec<u8>>)
    ensures
        document(r) == self::named(unnamed@),
{
    if unnamed.len() == 0 || unnamed[0] != TAG_COMPOUND {
        return None;
    }
    let payload = slice_subrange(unnamed, 1, unnamed.len());
    let mut out: Vec<u8> = Vec::with_capacity(payload.len());
    out.push(TAG_COMPOUND);
    out.push(0);
    out.push(0);
    out.extend_from_slice(payload);
    assert(out@ =~= seq![TAG_COMPOUND, 0u8, 0u8] + unnamed@.skip(1));
    Some(out)
}

/// Taking the name out of a document that was given one restores it.
pub proof fn law_roots_round_trip(d: Seq<u8>)
    ensures
        match named(d) {
            Some(whole) => unnamed(whole) == Some(d),
            None => d.len() == 0 || d[0] != TAG_COMPOUND,
        },
{
    if let Some(whole) = named(d) {
        assert(seq![TAG_COMPOUND] + whole.skip(3) =~= d);
    }
}

/// Appends the low `len` bytes of `n`, least significant first.
fn push_le(out: &mut Vec<u8>, n: u64, len: usize)
    requires
        len <= 8,
    ensures
        final(out)@ == old(out)@ + wire::to_le(n as nat, len as nat),
    decreases len,
{
    if len > 0 {
        out.push((n % 256) as u8);
        push_le(out, n / 256, len - 1);
    }
    assert(out@ =~= old(out)@ + wire::to_le(n as nat, len as nat));
}

/// Wraps bytes in a zstd frame built entirely from raw (stored) blocks.
///
/// The protocol demands zstd, and the reader on the other side holds the block
/// entity dictionary — but a frame that declares no dictionary decodes fine with
/// one loaded, and raw blocks need no entropy tables at all. That buys format
/// compatibility without dragging a zstd *encoder* into the WASM build, which
/// would mean a C toolchain. The cost is that what we send back is not actually
/// compressed; these payloads are small and infrequent.
pub fn compress_raw(data: &[u8]) -> (r: Vec<u8>)
    ensures
        r@ == zstd::raw_frame(data@),
{
    let mut out: Vec<u8> = Vec::with_capacity(data.len());
    out.push(0x28);
    out.push(0xB5);
    out.push(0x2F);
    out.push(0xFD);
    // Single segment, 4-byte content size, no dictionary, no checksum.
    out.push(0b1010_0000);
    push_le(&mut out, data.len() as u64 % 0x1_0000_0000, 4);
    assert(out@ =~= zstd::raw_head(data@.len()));
    let mut start: usize = 0;
    assert(data@.skip(0) =~= data@);
    while data.len() - start > MAX_BLOCK
        invariant
            start <= data@.len(),
            out@ + zstd::raw_blocks(data@.skip(start as int)) == zstd::raw_frame(data@),
        decreases data@.len() - start,
    {
        let ghost before = out@;
        let ghost left = data@.skip(start as int);
        let block = slice_subrange(data, start, start + MAX_BLOCK);
        push_le(&mut out, MAX_BLOCK as u64 * 8, 3);
        out.extend_from_slice(block);
        start += MAX_BLOCK;
        proof {
            assert(block@ =~= left.take(MAX_BLOCK as int));
            assert(left.skip(MAX_BLOCK as int) =~= data@.skip(start as int));
            assert(before + zstd::raw_blocks(left) =~= out@ + zstd::raw_blocks(
                data@.skip(start as int),
            ));
        }
    }
    let block = slice_subrange(data, start, data.len());
    push_le(&mut out, block.len() as u64 * 8 + 1, 3);
    out.extend_from_slice(block);
    assert(block@ =~= data@.skip(start as int));
    assert(out@ =~= zstd::raw_frame(data@));
    out
}

/// The text of a block entity that is declared larger than any may be.
pub open spec fn too_large_text(size: nat) -> Seq<char> {
    "block entity NBT too large: "@ + text::decimal(size) + " > "@ + text::decimal(
        MAX_DECOMPRESSED as nat,
    )
}

/// The text of a block entity that does not hold what it declared.
pub open spec fn mismatch_text(filled: nat, size: nat) -> Seq<char> {
    "block entity NBT size mismatch: "@ + text::decimal(filled) + " != "@ + text::decimal(size)
}

/// What is made of the `content` that came for a block entity of `size` bytes, where `more` came
/// behind it.
pub open spec fn exact_size(content: Seq<u8>, more: nat, size: nat) -> Result<
    Seq<u8>,
    Seq<char>,
> {
    if content.len() + more == size {
        Ok(content)
    } else {
        Err(mismatch_text(content.len() + more, size))
    }
}

/// The dictionaries of the decoder for block entities, or `None` where theirs could not be
/// loaded.
pub open spec fn decoder_state(decoder: Option<Decoder>) -> Option<Seq<Seq<u8>>> {
    match decoder {
        Some(kept) => Some(kept.dictionaries()),
        None => None,
    }
}

/// What decompressing a block entity comes to, with a decoder that has these dictionaries.
pub open spec fn decompressed(
    decoder: Option<Seq<Seq<u8>>>,
    compressed: Seq<u8>,
    size: nat,
) -> Result<Seq<u8>, Seq<char>> {
    if size > MAX_DECOMPRESSED {
        Err(too_large_text(size))
    } else {
        match decoder {
            None => Err("block entity dictionary unavailable"@),
            Some(dictionaries) => match zstd::drawn_and_on(dictionaries, compressed, size) {
                Ok((content, more)) => exact_size(content, more, size),
                Err(why) => Err(why),
            },
        }
    }
}

/// Takes the first `filled` bytes of `out` as a block entity if they are all of it, and if no
/// `more` came behind them.
pub fn take_exact(out: Vec<u8>, filled: usize, more: usize) -> (r: Result<Vec<u8>, String>)
    requires
        filled <= out@.len(),
        filled < out@.len() ==> more == 0,
    ensures
        text::told(r) == exact_size(out@.take(filled as int), more as nat, out@.len()),
{
    if filled != out.len() || more != 0 {
        let mut text = String::new();
        text.append("block entity NBT size mismatch: ");
        text::push_decimal(&mut text, filled as u128 + more as u128);
        text.append(" != ");
        text::push_decimal(&mut text, out.len() as u128);
        return Err(text);
    }
    assert(out@.take(filled as int) =~= out@);
    Ok(out)
}

/// Decompresses one block entity into exactly `original_size` bytes.
///
/// The declared size is what bounds the allocation, so a blob that expands to
/// anything else is rejected rather than trusted.
pub fn decompress(
    decoder: &mut Option<Decoder>,
    compressed: &[u8],
    original_size: usize,
) -> (r: Result<Vec<u8>, String>)
    ensures
        text::told(r) == decompressed(
            decoder_state(*old(decoder)),
            compressed@,
            original_size as nat,
        ),
        decoder_state(*final(decoder)) == decoder_state(*old(decoder)),
        forall|data: Seq<u8>|
            *old(decoder) is Some && original_size <= MAX_DECOMPRESSED && original_size
                == data.len() && compressed@ == #[trigger] zstd::raw_frame(data)
                ==> text::told(r) == Ok::<Seq<u8>, Seq<char>>(data),
{
    if original_size > MAX_DECOMPRESSED {
        let mut text = String::new();
        text.append("block entity NBT too large: ");
        text::push_decimal(&mut text, original_size as u128);
        text.append(" > ");
        text::push_decimal(&mut text, MAX_DECOMPRESSED as u128);
        return Err(text);
    }
    match decoder {
        None => {
            let mut text = String::new();
            text.append("block entity dictionary unavailable");
            Err(text)
        },
        Some(kept) => {
            let ghost content = zstd::frame_content(kept.dictionaries(), compressed@);
            let mut out: Vec<u8> = vec![0u8; original_size];
            let (filled, more) = kept.read_frame(compressed, &mut out)?;
            proof {
                assert(content.take(content.len() as int) =~= content);
                assert(out@.take(out@.len() as int) =~= out@);
            }
            take_exact(out, filled, more)
        },
    }
}

} // verus!
