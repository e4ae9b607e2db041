//! Fields that are passed over without being looked at.

use vstd::prelude::*;

use crate::buf::{Error, Reader};
use crate::wire;

verus! {

/// One field.
#[derive(Clone, Copy)]
pub enum Part {
    /// A variable-length number.
    Var,
    /// Bytes of a fixed length.
    Raw(usize),
    /// A string.
    Text,
    /// Bytes with their length in front, up to the given length.
    Bytes(usize),
    /// Items of eight bytes each with their count in front: what they are, and how many there
    /// may be.
    Items(&'static str, usize),
}

/// What is left of a read once only its end matters.
pub open spec fn passed<T>(step: (Result<T, Error>, int)) -> (Result<(), Error>, int) {
    match step {
        (Ok(_), q) => (Ok(()), q),
        (Err(e), q) => (Err(e), q),
    }
}

/// Passes over one part.
pub open spec fn past_part(d: Seq<u8>, p: int, part: Part) -> (Result<(), Error>, int) {
    match part {
        Part::Var => passed(wire::read_var_i32(d, p)),
        Part::Raw(n) => passed(wire::take(d, p, n as int)),
        Part::Text => passed(wire::read_string(d, p)),
        Part::Bytes(max) => passed(wire::read_byte_array(d, p, max)),
        Part::Items(what, max) => match wire::read_var_len(d, p, what, max) {
            (Ok(n), q) => passed(wire::take(d, q, n * 8)),
            (Err(e), q) => (Err(e), q),
        },
    }
}

/// Passes over parts that follow each other.
pub open spec fn past_parts(d: Seq<u8>, p: int, parts: Seq<Part>) -> (Result<(), Error>, int)
    decreases parts.len(),
{
    if parts.len() == 0 {
        (Ok(()), p)
    } else {
        match past_part(d, p, parts[0]) {
            (Ok(()), q) => past_parts(d, q, parts.skip(1)),
            (Err(e), q) => (Err(e), q),
        }
    }
}

fn skip_part(r: &mut Reader<'_>, part: Part) -> (res: Result<(), Error>)
    requires
        old(r).wf(),
    ensures
        final(r).wf(),
        final(r).data() == old(r).data(),
        (res, final(r).at()) == past_part(old(r).data(), old(r).at(), part),
{
    match part {
        Part::Var => {
            r.var_i32()?;
        },
        Part::Raw(n) => {
            r.take(n)?;
        },
        Part::Text => {
            r.string()?;
        },
        Part::Bytes(max) => {
            r.byte_array(max)?;
        },
        Part::Items(what, max) => {
            let count: usize = r.var_len(what, max)?;
            match count.checked_mul(8) {
                Some(len) => {
                    r.take(len)?;
                },
                None => return Err(Error::Eof),
            }
        },
    }
    Ok(())
}

/// Passes over fields that follow each other.
pub fn skip_parts(r: &mut Reader<'_>, parts: &Vec<Part>) -> (res: Result<(), Error>)
    requires
        old(r).wf(),
    ensures
        final(r).wf(),
        final(r).data() == old(r).data(),
        (res, final(r).at()) == past_parts(old(r).data(), old(r).at(), parts@),
{
    assert(parts@.skip(0) =~= parts@);
    let mut i: usize = 0;
    while i < parts.len()
        invariant
            i <= parts@.len(),
            r.wf(),
            r.data() == old(r).data(),
            past_parts(r.data(), r.at(), parts@.skip(i as int)) == past_parts(
                old(r).data(),
                old(r).at(),
                parts@,
            ),
        decreases parts@.len() - i,
    {
        assert(parts@.skip(i as int).skip(1) =~= parts@.skip(i + 1));
        skip_part(r, parts[i])?;
        i += 1;
    }
    Ok(())
}

/// A part ends inside the buffer, and not before it starts.
pub proof fn lemma_part_forward(d: Seq<u8>, p: int, part: Part)
    requires
        0 <= p <= d.len(),
    ensures
        past_part(d, p, part).0 is Ok ==> p <= past_part(d, p, part).1 <= d.len(),
{
    wire::lemma_groups_forward(d, p, 5);
}

/// Parts end inside the buffer, and not before they start.
pub proof fn lemma_parts_forward(d: Seq<u8>, p: int, parts: Seq<Part>)
    requires
        0 <= p <= d.len(),
    ensures
        past_parts(d, p, parts).0 is Ok ==> p <= past_parts(d, p, parts).1 <= d.len(),
    decreases parts.len(),
{
    if parts.len() > 0 {
        lemma_part_forward(d, p, parts[0]);
        if let (Ok(()), q) = past_part(d, p, parts[0]) {
            lemma_parts_forward(d, q, parts.skip(1));
        }
    }
}

/// A part that is whole in one buffer is measured the same wherever it stands in another.
pub proof fn lemma_same_part(a: Seq<u8>, i: int, part: Part, d: Seq<u8>, o: int)
    requires
        0 <= i <= a.len(),
        past_part(a, i, part).0 is Ok,
        wire::agree(a, i, past_part(a, i, part).1, d, o),
    ensures
        past_part(d, i + o, part) == (
            Ok::<(), Error>(()),
            past_part(a, i, part).1 + o,
        ),
{
    match part {
        Part::Var => wire::lemma_same_var_i32(a, i, d, o),
        Part::Raw(n) => wire::lemma_same_take(a, i, n as int, d, o),
        Part::Text => wire::lemma_same_sized(a, i, "string", wire::MAX_STRING_BYTES, d, o),
        Part::Bytes(max) => wire::lemma_same_sized(a, i, "byte array", max, d, o),
        Part::Items(_, _) => {
            wire::lemma_groups_forward(a, i, 5);
            let (n, q) = (wire::read_var_i32(a, i).0->Ok_0, wire::read_var_i32(a, i).1);
            wire::lemma_same_var_i32(a, i, d, o);
            wire::lemma_same_take(a, q, n * 8, d, o);
        },
    }
}

pub proof fn lemma_same_parts(a: Seq<u8>, i: int, parts: Seq<Part>, d: Seq<u8>, o: int)
    requires
        0 <= i <= a.len(),
        past_parts(a, i, parts).0 is Ok,
        wire::agree(a, i, past_parts(a, i, parts).1, d, o),
    ensures
        past_parts(d, i + o, parts) == (
            Ok::<(), Error>(()),
            past_parts(a, i, parts).1 + o,
        ),
    decreases parts.len(),
{
    if parts.len() > 0 {
        let j = past_part(a, i, parts[0]).1;
        lemma_part_forward(a, i, parts[0]);
        lemma_parts_forward(a, j, parts.skip(1));
        lemma_same_part(a, i, parts[0], d, o);
        lemma_same_parts(a, j, parts.skip(1), d, o);
    }
}

/// Parts of a fixed length depend on the length of the buffer alone.
pub proof fn lemma_raw_parts(a: Seq<u8>, b: Seq<u8>, p: int, parts: Seq<Part>)
    requires
        a.len() == b.len(),
        forall|i: int| 0 <= i < parts.len() ==> #[trigger] parts[i] is Raw,
    ensures
        past_parts(a, p, parts) == past_parts(b, p, parts),
    decreases parts.len(),
{
    if parts.len() > 0 {
        let rest = parts.skip(1);
        assert(parts[0] is Raw);
        assert forall|i: int| 0 <= i < rest.len() implies #[trigger] rest[i] is Raw by {
            assert(parts[i + 1] is Raw);
        }
        if let (Ok(()), q) = past_part(a, p, parts[0]) {
            lemma_raw_parts(a, b, q, rest);
        }
    }
}

} // verus!
