//! Laws of NBT values: what is read is what was written, wherever it stands, and what
//! sanitizing and merging leave behind.

use vstd::prelude::*;
use vstd::string::*;

use crate::buf::Error;
use crate::nbt;
use crate::nbt::FieldView;
use crate::text;
use crate::wire;
use crate::zstd;

verus! {

proof fn lemma_same_array_len(a: Seq<u8>, i: int, d: Seq<u8>, o: int)
    requires
        wire::agree(a, i, i + 4, d, o),
    ensures
        nbt::read_array_len(a, i).1 == i + 4,
        nbt::read_array_len(d, i + o) == (nbt::read_array_len(a, i).0, i + 4 + o),
{
    wire::lemma_same_take(a, i, 4, d, o);
}

proof fn lemma_same_name(a: Seq<u8>, i: int, d: Seq<u8>, o: int)
    requires
        0 <= i,
        nbt::read_name(a, i).0 is Ok,
        wire::agree(a, i, nbt::read_name(a, i).1, d, o),
    ensures
        i + 2 <= nbt::read_name(a, i).1,
        nbt::read_name(d, i + o) == (nbt::read_name(a, i).0, nbt::read_name(a, i).1 + o),
        nbt::past_text(d, i + o) == (Ok::<(), Error>(()), nbt::read_name(a, i).1 + o),
        nbt::past_text(a, i) == (Ok::<(), Error>(()), nbt::read_name(a, i).1),
{
    wire::lemma_same_take(a, i, 2, d, o);
    let n = wire::read_u16(a, i).0->Ok_0;
    wire::lemma_same_take(a, i + 2, n as int, d, o);
}

/// A payload that is whole in one buffer is measured the same wherever it stands in another,
/// and at any lower depth.
pub proof fn lemma_same_payload(
    a: Seq<u8>,
    i: int,
    d: Seq<u8>,
    o: int,
    tag: u8,
    depth: nat,
    low: nat,
)
    requires
        0 <= i <= a.len(),
        low <= depth,
        nbt::past_payload(a, i, tag, depth).0 is Ok,
        wire::agree(a, i, nbt::past_payload(a, i, tag, depth).1, d, o),
    ensures
        nbt::past_payload(d, i + o, tag, low) == (
            Ok::<(), Error>(()),
            nbt::past_payload(a, i, tag, depth).1 + o,
        ),
    decreases nbt::levels_left(depth), 0nat, 0int,
{
    if tag == 1 {
        wire::lemma_same_take(a, i, 1, d, o);
    } else if tag == 2 {
        wire::lemma_same_take(a, i, 2, d, o);
    } else if tag == 3 || tag == 5 {
        wire::lemma_same_take(a, i, 4, d, o);
    } else if tag == 4 || tag == 6 {
        wire::lemma_same_take(a, i, 8, d, o);
    } else if tag == 7 || tag == 11 || tag == 12 {
        let n = nbt::read_array_len(a, i).0->Ok_0;
        let width: int = if tag == 7 { 1 } else if tag == 11 { 4 } else { 8 };
        lemma_same_array_len(a, i, d, o);
        wire::lemma_same_take(a, i + 4, n * width, d, o);
    } else if tag == 8 {
        assert(nbt::read_name(a, i).0 is Ok);
        lemma_same_name(a, i, d, o);
    } else if tag == 9 {
        let n = nbt::read_array_len(a, i + 1).0->Ok_0;
        if a[i] != 0 {
            lemma_items_span(a, i + 5, a[i], n as nat, depth + 1);
            lemma_same_array_len(a, i + 1, d, o);
            lemma_same_items(a, i + 5, d, o, a[i], n as nat, depth + 1, low + 1);
        } else {
            lemma_same_array_len(a, i + 1, d, o);
        }
        assert(a[i] == d[i + o]);
    } else if tag == 10 {
        lemma_same_entries(a, i, d, o, depth + 1, low + 1);
    }
}

/// Payloads that follow each other end inside the buffer, and not before they start.
proof fn lemma_items_span(a: Seq<u8>, i: int, element: u8, n: nat, depth: nat)
    requires
        0 <= i <= a.len(),
    ensures
        i <= nbt::past_items(a, i, element, n, depth).1 <= a.len(),
    decreases n,
{
    if n > 0 {
        nbt::lemma_past_forward(a, i, element, depth);
        let j = nbt::past_payload(a, i, element, depth).1;
        lemma_items_span(a, j, element, (n - 1) as nat, depth);
    }
}

/// Named values end inside the buffer, and not before they start.
proof fn lemma_entries_span(a: Seq<u8>, i: int, depth: nat)
    requires
        0 <= i <= a.len(),
    ensures
        i <= nbt::past_entries(a, i, depth).1 <= a.len(),
    decreases a.len() - i,
{
    if i < a.len() && a[i] != 0 {
        match nbt::past_text(a, i + 1) {
            (Ok(()), j) => {
                nbt::lemma_past_forward(a, j, a[i], depth);
                match nbt::past_payload(a, j, a[i], depth) {
                    (Ok(()), k) => lemma_entries_span(a, k, depth),
                    _ => {},
                }
            },
            _ => {},
        }
    }
}

proof fn lemma_same_items(
    a: Seq<u8>,
    i: int,
    d: Seq<u8>,
    o: int,
    element: u8,
    n: nat,
    depth: nat,
    low: nat,
)
    requires
        0 <= i <= a.len(),
        low <= depth,
        nbt::past_items(a, i, element, n, depth).0 is Ok,
        wire::agree(a, i, nbt::past_items(a, i, element, n, depth).1, d, o),
    ensures
        nbt::past_items(d, i + o, element, n, low) == (
            Ok::<(), Error>(()),
            nbt::past_items(a, i, element, n, depth).1 + o,
        ),
    decreases nbt::levels_left(depth), 1nat, n as int,
{
    if n > 0 {
        let j = nbt::past_payload(a, i, element, depth).1;
        nbt::lemma_past_forward(a, i, element, depth);
        lemma_items_span(a, j, element, (n - 1) as nat, depth);
        lemma_same_payload(a, i, d, o, element, depth, low);
        lemma_same_items(a, j, d, o, element, (n - 1) as nat, depth, low);
    }
}

proof fn lemma_same_entries(a: Seq<u8>, i: int, d: Seq<u8>, o: int, depth: nat, low: nat)
    requires
        0 <= i <= a.len(),
        low <= depth,
        nbt::past_entries(a, i, depth).0 is Ok,
        wire::agree(a, i, nbt::past_entries(a, i, depth).1, d, o),
    ensures
        nbt::past_entries(d, i + o, low) == (
            Ok::<(), Error>(()),
            nbt::past_entries(a, i, depth).1 + o,
        ),
    decreases nbt::levels_left(depth), 1nat, a.len() - i,
{
    if a[i] != 0 {
        let j = nbt::past_text(a, i + 1).1;
        assert(nbt::read_name(a, i + 1) == (nbt::read_name(a, i + 1).0, j));
        nbt::lemma_past_forward(a, j, a[i], depth);
        let k = nbt::past_payload(a, j, a[i], depth).1;
        lemma_entries_span(a, k, depth);
        lemma_same_name(a, i + 1, d, o);
        lemma_same_payload(a, j, d, o, a[i], depth, low);
        lemma_same_entries(a, k, d, o, depth, low);
    }
    assert(a[i] == d[i + o]);
}

/// A value that spans a byte string is measured exactly, whatever stands before and behind it.
pub proof fn law_network_tag_is_measured(t: Seq<u8>, d: Seq<u8>, p: int)
    requires
        nbt::read_network_tag(t, 0) == (Ok::<Seq<u8>, Error>(t), t.len() as int),
        wire::stands(d, p, t),
    ensures
        nbt::read_network_tag(d, p) == (Ok::<Seq<u8>, Error>(t), p + t.len()),
{
    wire::lemma_stands_agree(t, d, p);
    lemma_same_payload(t, 1, d, p, t[0], 0, 0);
    assert(t[0] == d[p]);
}

/// Whether the payloads are whole values of their types, `depth` levels deep, under names
/// that can be written.
pub open spec fn fits(fields: Seq<FieldView>, depth: nat) -> bool {
    forall|i: int| 0 <= i < fields.len() ==> field_fits(#[trigger] fields[i], depth)
}

/// Whether the payload is a whole value of its type, under a name that can be written.
pub open spec fn field_fits(f: FieldView, depth: nat) -> bool {
    &&& f.tag != 0
    &&& f.name.len() < 0x1_0000
    &&& nbt::past_payload(f.payload, 0, f.tag, depth) == (
        Ok::<(), Error>(()),
        f.payload.len() as int,
    )
}

/// The payload of a field is passed over wherever it stands.
proof fn lemma_payload_passed(f: FieldView, d: Seq<u8>, start: int)
    requires
        field_fits(f, 1),
        wire::stands(d, start, f.payload),
    ensures
        nbt::past_payload(d, start, f.tag, 1) == (Ok::<(), Error>(()), start + f.payload.len()),
{
    wire::lemma_stands_agree(f.payload, d, start);
    lemma_same_payload(f.payload, 0, d, start, f.tag, 1, 1);
}

/// The fields of a compound are read back wherever they stand, whatever follows.
pub proof fn lemma_entries_read_back(fields: Seq<FieldView>, d: Seq<u8>, p: int)
    requires
        fits(fields, 1),
        wire::stands(d, p, nbt::entries_bytes(fields)),
    ensures
        nbt::read_entries(d, p) == (
            Ok::<Seq<FieldView>, Error>(fields),
            p + nbt::entries_bytes(fields).len(),
        ),
    decreases fields.len(),
{
    if fields.len() == 0 {
        wire::lemma_stands_agree(seq![0u8], d, p);
        assert(seq![0u8][0] == d[p]);
        assert(fields =~= Seq::empty());
    } else {
        let f = fields[0];
        let rest = fields.skip(1);
        let start = p + 3 + f.name.len();
        assert(field_fits(fields[0], 1));
        assert forall|i: int| 0 <= i < rest.len() implies field_fits(#[trigger] rest[i], 1) by {
            assert(rest[i] == fields[i + 1]);
        }
        lemma_field_stands(f, nbt::entries_bytes(rest), d, p);
        lemma_payload_passed(f, d, start);
        lemma_entries_read_back(rest, d, start + f.payload.len());
        lemma_field_and_rest(f, rest, d, p, p + nbt::entries_bytes(fields).len());
        assert(seq![f] + rest =~= fields);
    }
}

/// A field and the fields behind it make up the fields of a compound.
proof fn lemma_field_and_rest(f: FieldView, rest: Seq<FieldView>, d: Seq<u8>, p: int, end: int)
    requires
        f.tag != 0,
        0 <= p,
        wire::read_u8(d, p) == (Ok::<u8, Error>(f.tag), p + 1),
        nbt::read_name(d, p + 1) == (Ok::<Seq<u8>, Error>(f.name), p + 3 + f.name.len()),
        wire::stands(d, p + 3 + f.name.len(), f.payload),
        nbt::past_payload(d, p + 3 + f.name.len(), f.tag, 1) == (
            Ok::<(), Error>(()),
            p + 3 + f.name.len() + f.payload.len(),
        ),
        nbt::read_entries(d, p + 3 + f.name.len() + f.payload.len()) == (
            Ok::<Seq<FieldView>, Error>(rest),
            end,
        ),
    ensures
        nbt::read_entries(d, p) == (Ok::<Seq<FieldView>, Error>(seq![f] + rest), end),
{
    let start = p + 3 + f.name.len();
    let field = FieldView {
        tag: f.tag,
        name: f.name,
        payload: d.subrange(start, start + f.payload.len()),
    };
    assert(field == f);
}

/// Where the parts of a written field stand.
proof fn lemma_field_stands(f: FieldView, tail: Seq<u8>, d: Seq<u8>, p: int)
    requires
        f.name.len() < 0x1_0000,
        wire::stands(d, p, nbt::field_bytes(f) + tail),
    ensures
        nbt::field_bytes(f).len() == 3 + f.name.len() + f.payload.len(),
        wire::read_u8(d, p) == (Ok::<u8, Error>(f.tag), p + 1),
        nbt::read_name(d, p + 1) == (Ok::<Seq<u8>, Error>(f.name), p + 3 + f.name.len()),
        wire::stands(d, p + 3 + f.name.len(), f.payload),
        wire::stands(d, p + 3 + f.name.len() + f.payload.len(), tail),
{
    let len = wire::to_be(f.name.len() % 0x1_0000, 2);
    wire::lemma_to_be_len(f.name.len() % 0x1_0000, 2);
    wire::lemma_stands_split(d, p, nbt::field_bytes(f), tail);
    wire::lemma_stands_split(d, p, seq![f.tag] + len + f.name, f.payload);
    wire::lemma_stands_split(d, p, seq![f.tag] + len, f.name);
    wire::lemma_stands_split(d, p, seq![f.tag], len);
    wire::lemma_stands_agree(seq![f.tag], d, p);
    assert(seq![f.tag][0] == d[p]);
    lemma_u16_back(d, p + 1, f.name.len());
    wire::law_take(d, p + 3, f.name);
}

proof fn lemma_u16_back(d: Seq<u8>, p: int, n: nat)
    requires
        n < 0x1_0000,
        wire::stands(d, p, wire::to_be(n % 0x1_0000, 2)),
    ensures
        wire::read_u16(d, p) == (Ok::<u16, Error>(n as u16), p + 2),
{
    reveal_with_fuel(wire::pow256, 3);
    wire::law_be_round_trip(n, 2);
}

/// Fields that fit at some depth fit at every lower one.
proof fn lemma_fits_lower(fields: Seq<FieldView>, depth: nat, low: nat)
    requires
        fits(fields, depth),
        low <= depth,
    ensures
        fits(fields, low),
{
    assert forall|i: int| 0 <= i < fields.len() implies field_fits(#[trigger] fields[i], low) by {
        let f = fields[i];
        assert(field_fits(fields[i], depth));
        lemma_same_payload(f.payload, 0, f.payload, 0, f.tag, depth, low);
    }
}

/// The fields of a compound are measured wherever they stand.
proof fn lemma_entries_measured(fields: Seq<FieldView>, d: Seq<u8>, p: int, depth: nat)
    requires
        fits(fields, depth),
        wire::stands(d, p, nbt::entries_bytes(fields)),
    ensures
        nbt::past_entries(d, p, depth) == (
            Ok::<(), Error>(()),
            p + nbt::entries_bytes(fields).len(),
        ),
    decreases fields.len(),
{
    if fields.len() == 0 {
        wire::lemma_stands_agree(seq![0u8], d, p);
        assert(seq![0u8][0] == d[p]);
    } else {
        let f = fields[0];
        let rest = fields.skip(1);
        let start = p + 3 + f.name.len();
        assert(field_fits(fields[0], depth));
        assert forall|i: int| 0 <= i < rest.len() implies field_fits(#[trigger] rest[i], depth) by {
            assert(rest[i] == fields[i + 1]);
        }
        lemma_field_stands(f, nbt::entries_bytes(rest), d, p);
        wire::lemma_stands_agree(f.payload, d, start);
        lemma_same_payload(f.payload, 0, d, start, f.tag, depth, depth);
        lemma_entries_measured(rest, d, start + f.payload.len(), depth);
    }
}

/// What is measured as the fields of a compound is read as fields that fit at that depth.
proof fn lemma_measured_entries_fit(d: Seq<u8>, p: int, depth: nat)
    requires
        0 <= p <= d.len(),
        1 <= depth,
        nbt::past_entries(d, p, depth).0 is Ok,
    ensures
        match nbt::read_entries(d, p) {
            (Ok(fields), q) => q == nbt::past_entries(d, p, depth).1 && fits(fields, depth),
            _ => false,
        },
    decreases d.len() - p,
{
    if d[p] != 0 {
        let q2 = nbt::past_text(d, p + 1).1;
        let name = nbt::read_name(d, p + 1).0->Ok_0;
        nbt::lemma_past_forward(d, q2, d[p], depth);
        let q3 = nbt::past_payload(d, q2, d[p], depth).1;
        lemma_same_payload(d, q2, d, 0, d[p], depth, 1);
        lemma_measured_entries_fit(d, q3, depth);
        let f = FieldView { tag: d[p], name, payload: d.subrange(q2, q3) };
        let rest = nbt::read_entries(d, q3).0->Ok_0;
        lemma_same_payload(d, q2, f.payload, -q2, d[p], depth, depth);
        assert(field_fits(f, depth));
        assert forall|i: int| 0 <= i < (seq![f] + rest).len() implies field_fits(
            #[trigger] (seq![f] + rest)[i],
            depth,
        ) by {
            if i > 0 {
                assert((seq![f] + rest)[i] == rest[i - 1]);
            }
        }
    }
}

/// The fields that are read from a compound fit.
proof fn lemma_read_entries_fit(d: Seq<u8>, p: int)
    requires
        0 <= p <= d.len(),
    ensures
        nbt::read_entries(d, p).0 matches Ok(fields) ==> fits(fields, 1),
    decreases d.len() - p,
{
    if let (Ok(fields), q) = nbt::read_entries(d, p) {
        if d[p] != 0 {
            let f = fields[0];
            let q2 = nbt::read_name(d, p + 1).1;
            let q3 = nbt::past_payload(d, q2, d[p], 1).1;
            let rest = nbt::read_entries(d, q3).0->Ok_0;
            nbt::lemma_past_forward(d, q2, d[p], 1);
            lemma_read_entries_fit(d, q3);
            lemma_same_payload(d, q2, f.payload, -q2, d[p], 1, 1);
            assert(field_fits(f, 1));
            assert forall|i: int| 0 <= i < fields.len() implies field_fits(
                #[trigger] fields[i],
                1,
            ) by {
                if i > 0 {
                    assert(fields[i] == rest[i - 1]);
                }
            }
        }
    }
}

/// The fields that are read from a compound are written as the bytes they were read from.
proof fn lemma_entries_written_back(d: Seq<u8>, p: int)
    requires
        0 <= p <= d.len(),
    ensures
        match nbt::read_entries(d, p) {
            (Ok(fields), q) => p < q <= d.len() && nbt::entries_bytes(fields) == d.subrange(p, q),
            _ => true,
        },
    decreases d.len() - p,
{
    if let (Ok(fields), q) = nbt::read_entries(d, p) {
        if d[p] == 0 {
            assert(d.subrange(p, q) =~= seq![0u8]);
        } else {
            let q2 = nbt::read_name(d, p + 1).1;
            let q3 = nbt::past_payload(d, q2, d[p], 1).1;
            let rest = nbt::read_entries(d, q3).0->Ok_0;
            nbt::lemma_past_forward(d, q2, d[p], 1);
            lemma_entries_written_back(d, q3);
            assert(fields.skip(1) =~= rest);
            lemma_field_written_back(d, p, q3);
            assert(d.subrange(p, q3) + d.subrange(q3, q) =~= d.subrange(p, q));
        }
    }
}

/// A field that is read is written as the bytes it was read from.
proof fn lemma_field_written_back(d: Seq<u8>, p: int, q: int)
    requires
        0 <= p < d.len(),
        nbt::read_name(d, p + 1).0 is Ok,
        nbt::read_name(d, p + 1).1 <= q <= d.len(),
    ensures
        nbt::field_bytes(
            FieldView {
                tag: d[p],
                name: nbt::read_name(d, p + 1).0->Ok_0,
                payload: d.subrange(nbt::read_name(d, p + 1).1, q),
            },
        ) == d.subrange(p, q),
{
    let len = d.subrange(p + 1, p + 3);
    lemma_u16_bytes(len);
    let n = wire::be(len) as int;
    let name = d.subrange(p + 3, p + 3 + n);
    assert(seq![d[p]] + len + name + d.subrange(p + 3 + n, q) =~= d.subrange(p, q));
}

/// Two bytes are the bytes of the number they stand for.
proof fn lemma_u16_bytes(s: Seq<u8>)
    requires
        s.len() == 2,
    ensures
        wire::be(s) < 0x1_0000,
        wire::to_be(wire::be(s) % 0x1_0000, 2) == s,
{
    reveal_with_fuel(wire::be, 3);
    reveal_with_fuel(wire::to_be, 3);
    assert(s.drop_last().drop_last() =~= Seq::<u8>::empty());
    assert(wire::be(s) == 256 * s[0] as nat + s[1] as nat);
    assert(wire::to_be(wire::be(s), 2) =~= s);
}

/// Reading a compound gives back the fields that were written.
pub proof fn law_compound_round_trip(fields: Seq<FieldView>)
    requires
        fits(fields, 1),
    ensures
        nbt::parsed_compound(nbt::compound_bytes(fields)) == Ok::<Seq<FieldView>, Error>(fields),
{
    let d = nbt::compound_bytes(fields);
    wire::lemma_stands_between(seq![10u8], nbt::entries_bytes(fields), Seq::empty());
    assert(seq![10u8] + nbt::entries_bytes(fields) + Seq::<u8>::empty() =~= d);
    lemma_entries_read_back(fields, d, 1);
}

/// Writing the fields of a compound gives back the bytes they were read from, and the fields
/// are whole values under names that can be written.
pub proof fn law_compound_written_back(d: Seq<u8>)
    ensures
        match nbt::parsed_compound(d) {
            Ok(fields) => fits(fields, 1) && (d[0] == 10 ==> nbt::compound_bytes(fields) == d) && (
            d[0] != 10 ==> d == seq![0u8] && fields.len() == 0),
            Err(_) => true,
        },
{
    if let Ok(fields) = nbt::parsed_compound(d) {
        if d[0] == 10 {
            lemma_read_entries_fit(d, 1);
            lemma_entries_written_back(d, 1);
            assert(nbt::compound_bytes(fields) =~= d);
        } else {
            assert(d =~= seq![0u8]);
        }
    }
}

/// Compounds, each as it is written on its own.
pub open spec fn written(compounds: Seq<Seq<FieldView>>) -> Seq<Seq<u8>> {
    Seq::new(compounds.len(), |i: int| nbt::compound_bytes(compounds[i]))
}

/// Whether the fields of all the compounds fit.
pub open spec fn all_fit(compounds: Seq<Seq<FieldView>>, depth: nat) -> bool {
    forall|i: int| 0 <= i < compounds.len() ==> fits(#[trigger] compounds[i], depth)
}

/// Compounds that follow each other are read back wherever they stand.
proof fn lemma_compounds_read_back(compounds: Seq<Seq<FieldView>>, d: Seq<u8>, p: int)
    requires
        all_fit(compounds, 1),
        wire::stands(d, p, nbt::untagged(written(compounds))),
    ensures
        nbt::read_compounds(d, p, compounds.len()) == (
            Ok::<Seq<Seq<FieldView>>, Error>(compounds),
            p + nbt::untagged(written(compounds)).len(),
        ),
    decreases compounds.len(),
{
    if compounds.len() == 0 {
        assert(compounds =~= Seq::empty());
    } else {
        let head = compounds[0];
        let rest = compounds.skip(1);
        assert(written(compounds).skip(1) =~= written(rest));
        assert(written(compounds)[0].skip(1) =~= nbt::entries_bytes(head));
        wire::lemma_stands_split(d, p, nbt::entries_bytes(head), nbt::untagged(written(rest)));
        assert(fits(compounds[0], 1));
        assert forall|i: int| 0 <= i < rest.len() implies fits(#[trigger] rest[i], 1) by {
            assert(rest[i] == compounds[i + 1]);
        }
        lemma_entries_read_back(head, d, p);
        lemma_compounds_read_back(rest, d, p + nbt::entries_bytes(head).len());
        assert(seq![head] + rest =~= compounds);
    }
}

/// Compounds that follow each other are measured wherever they stand.
proof fn lemma_compounds_measured(
    compounds: Seq<Seq<FieldView>>,
    d: Seq<u8>,
    p: int,
    depth: nat,
)
    requires
        depth <= 512,
        all_fit(compounds, depth + 1),
        wire::stands(d, p, nbt::untagged(written(compounds))),
    ensures
        nbt::past_items(d, p, 10, compounds.len(), depth) == (
            Ok::<(), Error>(()),
            p + nbt::untagged(written(compounds)).len(),
        ),
    decreases compounds.len(),
{
    if compounds.len() > 0 {
        let head = compounds[0];
        let rest = compounds.skip(1);
        assert(written(compounds).skip(1) =~= written(rest));
        assert(written(compounds)[0].skip(1) =~= nbt::entries_bytes(head));
        wire::lemma_stands_split(d, p, nbt::entries_bytes(head), nbt::untagged(written(rest)));
        assert(fits(compounds[0], depth + 1));
        assert forall|i: int| 0 <= i < rest.len() implies fits(#[trigger] rest[i], depth + 1) by {
            assert(rest[i] == compounds[i + 1]);
        }
        lemma_entries_measured(head, d, p, depth + 1);
        assert(nbt::past_payload(d, p, 10, depth) == nbt::past_entries(d, p, depth + 1));
        lemma_compounds_measured(rest, d, p + nbt::entries_bytes(head).len(), depth);
    }
}

/// Where the parts of a written list stand.
proof fn lemma_list_stands(compounds: Seq<Seq<FieldView>>)
    requires
        compounds.len() <= 0x7fff_ffff,
    ensures
        ({
            let d = nbt::list_bytes(written(compounds));
            &&& wire::read_u8(d, 0) == (Ok::<u8, Error>(10u8), 1int)
            &&& nbt::read_array_len(d, 1) == (Ok::<usize, Error>(compounds.len() as usize), 5int)
            &&& wire::stands(d, 5, nbt::untagged(written(compounds)))
            &&& d.len() == 5 + nbt::untagged(written(compounds)).len()
        }),
{
    let n = compounds.len();
    let d = nbt::list_bytes(written(compounds));
    let len = wire::to_be(n % 0x1_0000_0000, 4);
    reveal_with_fuel(wire::pow256, 5);
    wire::law_be_round_trip(n, 4);
    assert(d.subrange(1, 5) =~= len);
    assert(d.subrange(5, d.len() as int) =~= nbt::untagged(written(compounds)));
}

/// Reading a list gives back the compounds it was made of.
pub proof fn law_list_round_trip(compounds: Seq<Seq<FieldView>>)
    requires
        all_fit(compounds, 1),
        compounds.len() <= 0x7fff_ffff,
    ensures
        nbt::parsed_list(nbt::list_bytes(written(compounds))) == Ok::<Seq<Seq<FieldView>>, Error>(
            compounds,
        ),
{
    let d = nbt::list_bytes(written(compounds));
    lemma_list_stands(compounds);
    lemma_compounds_read_back(compounds, d, 5);
}

/// The compounds that are read from a list fit, and deeper where the list was measured deeper.
proof fn lemma_list_fits(payload: Seq<u8>, depth: nat)
    ensures
        nbt::parsed_list(payload) matches Ok(compounds) ==> {
            &&& compounds.len() <= 0x7fff_ffff
            &&& all_fit(compounds, 1)
            &&& nbt::past_payload(payload, 0, 9, depth).0 is Ok ==> all_fit(compounds, depth + 2)
        },
{
    if let Ok(compounds) = nbt::parsed_list(payload) {
        if payload[0] == 10 {
            let n = nbt::read_array_len(payload, 1).0->Ok_0 as nat;
            lemma_read_compounds_fit(payload, 5, n);
            if nbt::past_payload(payload, 0, 9, depth).0 is Ok {
                lemma_measured_compounds_fit(payload, 5, n, depth + 1);
            }
        }
    }
}

proof fn lemma_read_compounds_fit(d: Seq<u8>, p: int, n: nat)
    requires
        0 <= p <= d.len(),
    ensures
        nbt::read_compounds(d, p, n).0 matches Ok(compounds) ==> compounds.len() == n && all_fit(
            compounds,
            1,
        ),
    decreases n,
{
    if let Ok(compounds) = nbt::read_compounds(d, p, n).0 {
        if n > 0 {
            let q = nbt::read_entries(d, p).1;
            let rest = nbt::read_compounds(d, q, (n - 1) as nat).0->Ok_0;
            nbt::lemma_entries_size(d, p);
            lemma_read_entries_fit(d, p);
            lemma_read_compounds_fit(d, q, (n - 1) as nat);
            assert forall|i: int| 0 <= i < compounds.len() implies fits(
                #[trigger] compounds[i],
                1,
            ) by {
                if i > 0 {
                    assert(compounds[i] == rest[i - 1]);
                }
            }
        }
    }
}

proof fn lemma_measured_compounds_fit(d: Seq<u8>, p: int, n: nat, depth: nat)
    requires
        0 <= p <= d.len(),
        nbt::past_items(d, p, 10, n, depth).0 is Ok,
    ensures
        match nbt::read_compounds(d, p, n) {
            (Ok(compounds), q) => all_fit(compounds, depth + 1),
            _ => false,
        },
    decreases n,
{
    if n > 0 {
        assert(nbt::past_payload(d, p, 10, depth).0 is Ok);
        assert(nbt::past_payload(d, p, 10, depth) == nbt::past_entries(d, p, depth + 1));
        lemma_measured_entries_fit(d, p, depth + 1);
        lemma_entries_span(d, p, depth + 1);
        let q = nbt::past_entries(d, p, depth + 1).1;
        lemma_measured_compounds_fit(d, q, (n - 1) as nat, depth);
        let head = nbt::read_entries(d, p).0->Ok_0;
        let rest = nbt::read_compounds(d, q, (n - 1) as nat).0->Ok_0;
        assert forall|i: int| 0 <= i < (seq![head] + rest).len() implies fits(
            #[trigger] (seq![head] + rest)[i],
            depth + 1,
        ) by {
            if i > 0 {
                assert((seq![head] + rest)[i] == rest[i - 1]);
            }
        }
    }
}

/// Whether the entity holds only fields that a client may set, and so does everything riding
/// it, at every level.
pub open spec fn clean(fields: Seq<FieldView>) -> bool
    decreases nbt::size(fields), 1nat,
{
    fields.len() == 0 || {
        &&& nbt::may_set(fields[0])
        &&& fields[0].name == nbt::passengers() ==> clean_list(fields[0].payload)
        &&& clean(fields.skip(1))
    }
}

/// Whether the payload is a list of riders that are all clean.
pub open spec fn clean_list(payload: Seq<u8>) -> bool
    decreases payload.len(), 1nat,
{
    proof {
        nbt::lemma_list_size(payload);
    }
    match nbt::parsed_list(payload) {
        Ok(riders) => clean_riders(riders),
        Err(_) => false,
    }
}

/// Whether the riders are all clean.
pub open spec fn clean_riders(riders: Seq<Seq<FieldView>>) -> bool
    decreases nbt::list_size(riders), 0nat,
{
    riders.len() == 0 || clean(riders[0]) && clean_riders(riders.skip(1))
}

/// What sanitizing leaves of each of the riders.
pub open spec fn left_of(riders: Seq<Seq<FieldView>>) -> Seq<Seq<FieldView>> {
    Seq::new(riders.len(), |i: int| nbt::sanitized(riders[i]).1)
}

/// Whatever survives sanitizing is clean at every level.
pub proof fn law_sanitized_is_clean(fields: Seq<FieldView>)
    ensures
        match nbt::sanitized(fields) {
            (Ok(()), out) => clean(out),
            _ => true,
        },
{
    lemma_sanitized(fields, 1);
}

/// Sanitizing whole values leaves whole values, so that what it leaves can be written and is
/// read back.
pub proof fn law_sanitized_fits(fields: Seq<FieldView>, depth: nat)
    requires
        fits(fields, depth),
    ensures
        match nbt::sanitized(fields) {
            (Ok(()), out) => fits(out, depth),
            _ => true,
        },
{
    lemma_sanitized(fields, depth);
}

/// What survives sanitizing is clean, and fits as deep as the fields did before.
proof fn lemma_sanitized(fields: Seq<FieldView>, depth: nat)
    ensures
        match nbt::sanitized(fields) {
            (Ok(()), out) => clean(out) && (fits(fields, depth) ==> fits(out, depth)),
            _ => true,
        },
    decreases nbt::size(fields), 2nat,
{
    nbt::lemma_kept_size(fields);
    lemma_kept(fields, depth);
    lemma_with_clean_riders(nbt::kept(fields), depth);
}

proof fn lemma_kept(fields: Seq<FieldView>, depth: nat)
    ensures
        forall|i: int| 0 <= i < nbt::kept(fields).len() ==> nbt::may_set(#[trigger] nbt::kept(fields)[i]),
        fits(fields, depth) ==> fits(nbt::kept(fields), depth),
    decreases fields.len(),
{
    reveal(Seq::filter);
    if fields.len() > 0 {
        let init = fields.drop_last();
        lemma_kept(init, depth);
        if fits(fields, depth) {
            assert forall|i: int| 0 <= i < init.len() implies field_fits(#[trigger] init[i], depth) by {
                assert(init[i] == fields[i]);
            }
            assert(field_fits(fields[fields.len() - 1], depth));
        }
    }
}

proof fn lemma_with_clean_riders(fields: Seq<FieldView>, depth: nat)
    requires
        forall|i: int| 0 <= i < fields.len() ==> nbt::may_set(#[trigger] fields[i]),
    ensures
        match nbt::with_clean_riders(fields) {
            (Ok(()), out) => clean(out) && (fits(fields, depth) ==> fits(out, depth)),
            _ => true,
        },
    decreases nbt::size(fields), 1nat,
{
    if let (Ok(()), out) = nbt::with_clean_riders(fields) {
        if fields.len() > 0 {
            let f = fields[0];
            let rest = fields.skip(1);
            let rest_out = nbt::with_clean_riders(rest).1;
            assert(nbt::may_set(fields[0]));
            assert forall|i: int| 0 <= i < rest.len() implies nbt::may_set(#[trigger] rest[i]) by {
                assert(rest[i] == fields[i + 1]);
            }
            lemma_with_clean_riders(rest, depth);
            assert(out.skip(1) =~= rest_out);
            if f.name == nbt::passengers() {
                lemma_clean_list(f.payload, depth);
            }
            if fits(fields, depth) {
                assert(field_fits(fields[0], depth));
                assert forall|i: int| 0 <= i < rest.len() implies field_fits(
                    #[trigger] rest[i],
                    depth,
                ) by {
                    assert(rest[i] == fields[i + 1]);
                }
                assert forall|i: int| 0 <= i < out.len() implies field_fits(
                    #[trigger] out[i],
                    depth,
                ) by {
                    if i > 0 {
                        assert(out[i] == rest_out[i - 1]);
                    }
                }
            }
        }
    }
}

proof fn lemma_clean_list(payload: Seq<u8>, depth: nat)
    ensures
        nbt::clean_riders(payload) matches Ok(out) ==> {
            &&& clean_list(out)
            &&& nbt::past_payload(payload, 0, 9, depth).0 is Ok ==> nbt::past_payload(
                out,
                0,
                9,
                depth,
            ) == (Ok::<(), Error>(()), out.len() as int)
        },
    decreases payload.len(), 1nat,
{
    if let Ok(out) = nbt::clean_riders(payload) {
        let riders = nbt::parsed_list(payload)->Ok_0;
        let deep = nbt::past_payload(payload, 0, 9, depth).0 is Ok;
        let inner: nat = if deep { depth + 2 } else { 1 };
        nbt::lemma_list_size(payload);
        lemma_list_fits(payload, depth);
        lemma_clean_all(riders, inner);
        let left = left_of(riders);
        assert(out == nbt::list_bytes(written(left)));
        assert forall|i: int| 0 <= i < left.len() implies fits(#[trigger] left[i], 1) by {
            lemma_fits_lower(left[i], inner, 1);
        }
        law_list_round_trip(left);
        lemma_list_stands(left);
        if deep {
            if left.len() > 0 {
                lemma_nested_depth(payload, depth);
            }
            if depth + 1 <= 512 {
                lemma_compounds_measured(left, out, 5, depth + 1);
            }
        }
    }
}

/// A list that is measured and holds a compound leaves room for one more level.
proof fn lemma_nested_depth(payload: Seq<u8>, depth: nat)
    requires
        nbt::past_payload(payload, 0, 9, depth).0 is Ok,
        nbt::parsed_list(payload) matches Ok(riders) && riders.len() > 0,
    ensures
        depth + 1 <= 512,
{
    let n = nbt::read_array_len(payload, 1).0->Ok_0 as nat;
    lemma_read_compounds_fit(payload, 5, n);
    assert(nbt::past_items(payload, 5, 10, n, depth + 1).0 is Ok);
    assert(nbt::past_payload(payload, 5, 10, depth + 1).0 is Ok);
}

proof fn lemma_written_first(compounds: Seq<Seq<FieldView>>)
    requires
        compounds.len() > 0,
    ensures
        written(compounds) == seq![nbt::compound_bytes(compounds[0])] + written(compounds.skip(1)),
{
    assert(written(compounds) =~= seq![nbt::compound_bytes(compounds[0])] + written(
        compounds.skip(1),
    ));
}

proof fn lemma_clean_all(riders: Seq<Seq<FieldView>>, depth: nat)
    requires
        all_fit(riders, depth),
    ensures
        nbt::clean_all(riders) matches Ok(bytes) ==> {
            &&& bytes == written(left_of(riders))
            &&& all_fit(left_of(riders), depth)
            &&& clean_riders(left_of(riders))
        },
    decreases nbt::list_size(riders), 0nat,
{
    if let Ok(bytes) = nbt::clean_all(riders) {
        let left = left_of(riders);
        if riders.len() == 0 {
            assert(bytes =~= written(left));
        } else {
            let rest = riders.skip(1);
            assert(fits(riders[0], depth));
            assert forall|i: int| 0 <= i < rest.len() implies fits(#[trigger] rest[i], depth) by {
                assert(rest[i] == riders[i + 1]);
            }
            lemma_sanitized(riders[0], depth);
            lemma_clean_all(rest, depth);
            assert(left.skip(1) =~= left_of(rest));
            lemma_written_first(left);
            assert forall|i: int| 0 <= i < left.len() implies fits(#[trigger] left[i], depth) by {
                if i > 0 {
                    assert(left[i] == left_of(rest)[i - 1]);
                }
            }
        }
    }
}

/// Sanitizing what survived sanitizing changes nothing.
pub proof fn law_sanitizing_twice_is_once(fields: Seq<FieldView>)
    ensures
        match nbt::sanitized(fields) {
            (Ok(()), out) => nbt::sanitized(out) == (Ok::<(), Error>(()), out),
            _ => true,
        },
    decreases nbt::size(fields), 2nat,
{
    nbt::lemma_kept_size(fields);
    lemma_kept(fields, 1);
    lemma_riders_twice(nbt::kept(fields));
    if let (Ok(()), out) = nbt::sanitized(fields) {
        lemma_all_kept(out);
    }
}

/// Nothing is dropped of fields that may all be set.
proof fn lemma_all_kept(fields: Seq<FieldView>)
    requires
        forall|i: int| 0 <= i < fields.len() ==> nbt::may_set(#[trigger] fields[i]),
    ensures
        nbt::kept(fields) == fields,
    decreases fields.len(),
{
    reveal(Seq::filter);
    if fields.len() > 0 {
        let init = fields.drop_last();
        assert forall|i: int| 0 <= i < init.len() implies nbt::may_set(#[trigger] init[i]) by {
            assert(init[i] == fields[i]);
        }
        lemma_all_kept(init);
        assert(nbt::may_set(fields[fields.len() - 1]));
        assert(init.push(fields.last()) =~= fields);
    }
}

proof fn lemma_riders_twice(fields: Seq<FieldView>)
    requires
        forall|i: int| 0 <= i < fields.len() ==> nbt::may_set(#[trigger] fields[i]),
    ensures
        match nbt::with_clean_riders(fields) {
            (Ok(()), out) => nbt::with_clean_riders(out) == (Ok::<(), Error>(()), out) && forall|
                i: int,
            |
                0 <= i < out.len() ==> nbt::may_set(#[trigger] out[i]),
            _ => true,
        },
    decreases nbt::size(fields), 1nat,
{
    if let (Ok(()), out) = nbt::with_clean_riders(fields) {
        if fields.len() > 0 {
            let f = fields[0];
            let rest = fields.skip(1);
            let rest_out = nbt::with_clean_riders(rest).1;
            assert(nbt::may_set(fields[0]));
            assert forall|i: int| 0 <= i < rest.len() implies nbt::may_set(#[trigger] rest[i]) by {
                assert(rest[i] == fields[i + 1]);
            }
            lemma_riders_twice(rest);
            if f.name == nbt::passengers() {
                lemma_list_twice(f.payload);
            }
            assert(out.skip(1) =~= rest_out);
            assert(seq![out[0]] + rest_out =~= out);
            assert forall|i: int| 0 <= i < out.len() implies nbt::may_set(#[trigger] out[i]) by {
                if i > 0 {
                    assert(out[i] == rest_out[i - 1]);
                }
            }
        }
    }
}

proof fn lemma_list_twice(payload: Seq<u8>)
    ensures
        nbt::clean_riders(payload) matches Ok(out) ==> nbt::clean_riders(out) == Ok::<
            Seq<u8>,
            Error,
        >(out),
    decreases payload.len(), 1nat,
{
    if let Ok(out) = nbt::clean_riders(payload) {
        let riders = nbt::parsed_list(payload)->Ok_0;
        let left = left_of(riders);
        nbt::lemma_list_size(payload);
        lemma_list_fits(payload, 1);
        lemma_clean_all(riders, 1);
        law_list_round_trip(left);
        lemma_all_twice(riders);
    }
}

proof fn lemma_all_twice(riders: Seq<Seq<FieldView>>)
    ensures
        nbt::clean_all(riders) is Ok ==> nbt::clean_all(left_of(riders)) == Ok::<
            Seq<Seq<u8>>,
            Error,
        >(written(left_of(riders))),
    decreases nbt::list_size(riders), 0nat,
{
    if nbt::clean_all(riders) is Ok {
        let left = left_of(riders);
        if riders.len() == 0 {
            assert(written(left) =~= Seq::<Seq<u8>>::empty());
        } else {
            let rest = riders.skip(1);
            law_sanitizing_twice_is_once(riders[0]);
            lemma_all_twice(rest);
            assert(left.skip(1) =~= left_of(rest));
            lemma_written_first(left);
        }
    }
}

/// The fields of one name, in their order.
pub open spec fn of_name(fields: Seq<FieldView>, name: Seq<u8>) -> Seq<FieldView> {
    fields.filter(|f: FieldView| f.name == name)
}

/// Whether some field has the name.
pub open spec fn names(fields: Seq<FieldView>, name: Seq<u8>) -> bool {
    exists|i: int| 0 <= i < fields.len() && (#[trigger] fields[i]).name == name
}

proof fn lemma_of_name_parts(a: Seq<FieldView>, f: FieldView, b: Seq<FieldView>, name: Seq<u8>)
    requires
        f.name != name,
    ensures
        of_name(a + seq![f] + b, name) == of_name(a + b, name),
{
    let pred = |g: FieldView| g.name == name;
    Seq::filter_distributes_over_add(a + seq![f], b, pred);
    Seq::filter_distributes_over_add(a, seq![f], pred);
    Seq::filter_distributes_over_add(a, b, pred);
    reveal(Seq::filter);
    assert(seq![f].drop_last() =~= Seq::<FieldView>::empty());
    assert(Seq::<FieldView>::empty().filter(pred) =~= Seq::<FieldView>::empty());
    assert(!pred(seq![f].last()));
    assert(seq![f].filter(pred) =~= Seq::<FieldView>::empty());
    assert(a.filter(pred) + Seq::<FieldView>::empty() =~= a.filter(pred));
}

/// A merge leaves the fields whose names no change has as they were, whether or not it gets
/// to its end.
pub proof fn law_merge_keeps_other_names(
    left: Seq<FieldView>,
    right: Seq<FieldView>,
    name: Seq<u8>,
)
    requires
        !names(right, name),
    ensures
        of_name(nbt::merged(left, right).1, name) == of_name(left, name),
    decreases right.len(),
{
    if right.len() > 0 {
        let f = right[0];
        let rest = right.skip(1);
        assert(f.name != name);
        assert(!names(rest, name)) by {
            if names(rest, name) {
                let i = choose|i: int|
                    0 <= i < rest.len() && (#[trigger] rest[i]).name == name;
                assert(right[i + 1].name == name);
            }
        }
        let (outcome, next) = nbt::merged_one(left, f);
        nbt::lemma_position(left, f.name, 0);
        if next == left.push(f) {
            lemma_of_name_parts(left, f, Seq::empty(), name);
            assert(left + seq![f] + Seq::<FieldView>::empty() =~= left.push(f));
            assert(left + Seq::<FieldView>::empty() =~= left);
        } else if next != left {
            let i = nbt::position(left, f.name, 0)->Some_0;
            let (a, b) = (left.take(i), left.skip(i + 1));
            lemma_of_name_parts(a, left[i], b, name);
            assert(a + seq![left[i]] + b =~= left);
            if next == left.remove(i) {
                assert(a + b =~= next);
            } else {
                lemma_of_name_parts(a, next[i], b, name);
                assert(a + seq![next[i]] + b =~= next);
            }
        }
        law_merge_keeps_other_names(next, rest, name);
    }
}

/// Merging whole values leaves whole values, so that what a merge leaves can be written and
/// is read back.
pub proof fn law_merge_fits(left: Seq<FieldView>, right: Seq<FieldView>, depth: nat)
    requires
        1 <= depth,
        fits(left, depth),
        fits(right, depth),
    ensures
        fits(nbt::merged(left, right).1, depth),
    decreases nbt::size(right), 1nat,
{
    if right.len() > 0 {
        let rest = right.skip(1);
        assert(field_fits(right[0], depth));
        assert forall|i: int| 0 <= i < rest.len() implies field_fits(#[trigger] rest[i], depth) by {
            assert(rest[i] == right[i + 1]);
        }
        lemma_merge_one_fits(left, right[0], depth);
        law_merge_fits(nbt::merged_one(left, right[0]).1, rest, depth);
    }
}

proof fn lemma_merge_one_fits(left: Seq<FieldView>, f: FieldView, depth: nat)
    requires
        1 <= depth,
        fits(left, depth),
        field_fits(f, depth),
    ensures
        fits(nbt::merged_one(left, f).1, depth),
    decreases f.payload.len() + 1, 0nat,
{
    let next = nbt::merged_one(left, f).1;
    nbt::lemma_position(left, f.name, 0);
    nbt::lemma_entries_size(f.payload, 0);
    if next == left {
    } else if next == left.push(f) {
        assert forall|j: int| 0 <= j < next.len() implies field_fits(#[trigger] next[j], depth) by {
            if j < left.len() {
                assert(field_fits(left[j], depth));
            }
        }
    } else {
        let i = nbt::position(left, f.name, 0)->Some_0;
        assert(field_fits(left[i], depth));
        if next == left.remove(i) {
            assert forall|j: int| 0 <= j < next.len() implies field_fits(
                #[trigger] next[j],
                depth,
            ) by {
                assert(field_fits(left[j], depth));
                assert(field_fits(left[j + 1], depth));
            }
        } else {
            if next != left.update(i, f) {
                let changes = nbt::read_entries(f.payload, 0).0->Ok_0;
                let child = nbt::read_entries(left[i].payload, 0).0->Ok_0;
                let whole = nbt::merged(child, changes).1;
                let bytes = nbt::entries_bytes(whole);
                lemma_measured_entries_fit(f.payload, 0, depth + 1);
                lemma_measured_entries_fit(left[i].payload, 0, depth + 1);
                law_merge_fits(child, changes, depth + 1);
                assert(bytes.subrange(0, bytes.len() as int) =~= bytes);
                lemma_entries_measured(whole, bytes, 0, depth + 1);
                assert(field_fits(FieldView { payload: bytes, ..left[i] }, depth));
            }
            assert forall|j: int| 0 <= j < next.len() implies field_fits(
                #[trigger] next[j],
                depth,
            ) by {
                assert(field_fits(left[j], depth));
            }
        }
    }
}

/// Fields that a client may set, and that hold no riders, all stay as they are.
pub proof fn law_allowed_fields_stay(fields: Seq<FieldView>)
    requires
        forall|i: int|
            0 <= i < fields.len() ==> nbt::allowed_key((#[trigger] fields[i]).name)
                && fields[i].name != "Passengers".spec_bytes(),
    ensures
        nbt::sanitized(fields) == (Ok::<(), Error>(()), fields),
{
    assert forall|i: int| 0 <= i < fields.len() implies nbt::may_set(#[trigger] fields[i]) by {
        assert(nbt::allowed_key(fields[i].name));
    }
    lemma_all_kept(fields);
    lemma_no_riders(fields);
}

proof fn lemma_no_riders(fields: Seq<FieldView>)
    requires
        forall|i: int|
            0 <= i < fields.len() ==> (#[trigger] fields[i]).name != "Passengers".spec_bytes(),
    ensures
        nbt::with_clean_riders(fields) == (Ok::<(), Error>(()), fields),
    decreases fields.len(),
{
    if fields.len() > 0 {
        let rest = fields.skip(1);
        assert(fields[0].name != "Passengers".spec_bytes());
        assert forall|i: int| 0 <= i < rest.len() implies (#[trigger] rest[i]).name
            != "Passengers".spec_bytes() by {
            assert(rest[i] == fields[i + 1]);
        }
        lemma_no_riders(rest);
        assert(seq![fields[0]] + rest =~= fields);
    }
}

/// Whatever is left of an entity's fields was among them, but for riders, and every field that a
/// client may set and that holds no riders is left, in its place among the others of its name.
pub proof fn law_sanitizing_drops_nothing_else(fields: Seq<FieldView>, name: Seq<u8>)
    requires
        name != "Passengers".spec_bytes(),
        nbt::sanitized(fields).0 is Ok,
    ensures
        of_name(nbt::sanitized(fields).1, name) == if nbt::allowed_key(name) {
            of_name(fields, name)
        } else {
            Seq::empty()
        },
{
    lemma_kept_of_name(fields, name);
    lemma_riders_of_name(nbt::kept(fields), name);
}

proof fn lemma_kept_of_name(fields: Seq<FieldView>, name: Seq<u8>)
    requires
        name != "Passengers".spec_bytes(),
    ensures
        of_name(nbt::kept(fields), name) == if nbt::allowed_key(name) {
            of_name(fields, name)
        } else {
            Seq::empty()
        },
    decreases fields.len(),
{
    reveal(Seq::filter);
    if fields.len() > 0 {
        let init = fields.drop_last();
        let f = fields.last();
        lemma_kept_of_name(init, name);
        let kept = nbt::kept(init);
        if nbt::may_set(f) {
            assert(kept.push(f).drop_last() =~= kept);
        }
    }
}

proof fn lemma_of_name_head(f: FieldView, rest: Seq<FieldView>, name: Seq<u8>)
    ensures
        of_name(seq![f] + rest, name) == if f.name == name {
            seq![f] + of_name(rest, name)
        } else {
            of_name(rest, name)
        },
{
    let pred = |g: FieldView| g.name == name;
    Seq::filter_distributes_over_add(seq![f], rest, pred);
    reveal(Seq::filter);
    assert(seq![f].drop_last() =~= Seq::<FieldView>::empty());
    assert(Seq::<FieldView>::empty().filter(pred) =~= Seq::<FieldView>::empty());
    assert(seq![f].filter(pred) =~= if pred(f) {
        seq![f]
    } else {
        Seq::empty()
    });
    assert(Seq::<FieldView>::empty() + of_name(rest, name) =~= of_name(rest, name));
}

proof fn lemma_riders_of_name(fields: Seq<FieldView>, name: Seq<u8>)
    requires
        name != "Passengers".spec_bytes(),
        nbt::with_clean_riders(fields).0 is Ok,
    ensures
        of_name(nbt::with_clean_riders(fields).1, name) == of_name(fields, name),
    decreases fields.len(),
{
    if fields.len() > 0 {
        let rest = fields.skip(1);
        let out = nbt::with_clean_riders(fields).1;
        let later = nbt::with_clean_riders(rest).1;
        lemma_riders_of_name(rest, name);
        lemma_of_name_head(fields[0], rest, name);
        lemma_of_name_head(out[0], later, name);
        assert(seq![fields[0]] + rest =~= fields);
        assert(seq![out[0]] + later =~= out);
    }
}

/// A client may set these root keys of an entity, and no other.
pub proof fn law_allowed_keys_are_these(name: Seq<u8>)
    ensures
        nbt::allowed_key(name) <==> {
            ||| name == "id".spec_bytes()
            ||| name == "Pos".spec_bytes()
            ||| name == "Rotation".spec_bytes()
            ||| name == "Invulnerable".spec_bytes()
            ||| name == "CustomName".spec_bytes()
            ||| name == "CustomNameVisible".spec_bytes()
            ||| name == "Silent".spec_bytes()
            ||| name == "NoGravity".spec_bytes()
            ||| name == "Glowing".spec_bytes()
            ||| name == "Tags".spec_bytes()
            ||| name == "Passengers".spec_bytes()
            ||| name == "ArmorItems".spec_bytes()
            ||| name == "HandItems".spec_bytes()
            ||| name == "Small".spec_bytes()
            ||| name == "ShowArms".spec_bytes()
            ||| name == "DisabledSlots".spec_bytes()
            ||| name == "NoBasePlate".spec_bytes()
            ||| name == "Marker".spec_bytes()
            ||| name == "Pose".spec_bytes()
            ||| name == "data".spec_bytes()
            ||| name == "transformation".spec_bytes()
            ||| name == "interpolation_duration".spec_bytes()
            ||| name == "start_interpolation".spec_bytes()
            ||| name == "teleport_duration".spec_bytes()
            ||| name == "billboard".spec_bytes()
            ||| name == "view_range".spec_bytes()
            ||| name == "shadow_radius".spec_bytes()
            ||| name == "shadow_strength".spec_bytes()
            ||| name == "width".spec_bytes()
            ||| name == "height".spec_bytes()
            ||| name == "glow_color_override".spec_bytes()
            ||| name == "brightness".spec_bytes()
            ||| name == "line_width".spec_bytes()
            ||| name == "text_opacity".spec_bytes()
            ||| name == "background".spec_bytes()
            ||| name == "shadow".spec_bytes()
            ||| name == "see_through".spec_bytes()
            ||| name == "default_background".spec_bytes()
            ||| name == "alignment".spec_bytes()
            ||| name == "text".spec_bytes()
            ||| name == "block_state".spec_bytes()
            ||| name == "item".spec_bytes()
            ||| name == "item_display".spec_bytes()
        },
{
    let keys = nbt::allowed_entity_keys();
    assert(keys[0].spec_bytes() == "id".spec_bytes());
    assert(keys[1].spec_bytes() == "Pos".spec_bytes());
    assert(keys[2].spec_bytes() == "Rotation".spec_bytes());
    assert(keys[3].spec_bytes() == "Invulnerable".spec_bytes());
    assert(keys[4].spec_bytes() == "CustomName".spec_bytes());
    assert(keys[5].spec_bytes() == "CustomNameVisible".spec_bytes());
    assert(keys[6].spec_bytes() == "Silent".spec_bytes());
    assert(keys[7].spec_bytes() == "NoGravity".spec_bytes());
    assert(keys[8].spec_bytes() == "Glowing".spec_bytes());
    assert(keys[9].spec_bytes() == "Tags".spec_bytes());
    assert(keys[10].spec_bytes() == "Passengers".spec_bytes());
    assert(keys[11].spec_bytes() == "ArmorItems".spec_bytes());
    assert(keys[12].spec_bytes() == "HandItems".spec_bytes());
    assert(keys[13].spec_bytes() == "Small".spec_bytes());
    assert(keys[14].spec_bytes() == "ShowArms".spec_bytes());
    assert(keys[15].spec_bytes() == "DisabledSlots".spec_bytes());
    assert(keys[16].spec_bytes() == "NoBasePlate".spec_bytes());
    assert(keys[17].spec_bytes() == "Marker".spec_bytes());
    assert(keys[18].spec_bytes() == "Pose".spec_bytes());
    assert(keys[19].spec_bytes() == "data".spec_bytes());
    assert(keys[20].spec_bytes() == "transformation".spec_bytes());
    assert(keys[21].spec_bytes() == "interpolation_duration".spec_bytes());
    assert(keys[22].spec_bytes() == "start_interpolation".spec_bytes());
    assert(keys[23].spec_bytes() == "teleport_duration".spec_bytes());
    assert(keys[24].spec_bytes() == "billboard".spec_bytes());
    assert(keys[25].spec_bytes() == "view_range".spec_bytes());
    assert(keys[26].spec_bytes() == "shadow_radius".spec_bytes());
    assert(keys[27].spec_bytes() == "shadow_strength".spec_bytes());
    assert(keys[28].spec_bytes() == "width".spec_bytes());
    assert(keys[29].spec_bytes() == "height".spec_bytes());
    assert(keys[30].spec_bytes() == "glow_color_override".spec_bytes());
    assert(keys[31].spec_bytes() == "brightness".spec_bytes());
    assert(keys[32].spec_bytes() == "line_width".spec_bytes());
    assert(keys[33].spec_bytes() == "text_opacity".spec_bytes());
    assert(keys[34].spec_bytes() == "background".spec_bytes());
    assert(keys[35].spec_bytes() == "shadow".spec_bytes());
    assert(keys[36].spec_bytes() == "see_through".spec_bytes());
    assert(keys[37].spec_bytes() == "default_background".spec_bytes());
    assert(keys[38].spec_bytes() == "alignment".spec_bytes());
    assert(keys[39].spec_bytes() == "text".spec_bytes());
    assert(keys[40].spec_bytes() == "block_state".spec_bytes());
    assert(keys[41].spec_bytes() == "item".spec_bytes());
    assert(keys[42].spec_bytes() == "item_display".spec_bytes());
}

/// Riders may only be set as a list.
pub proof fn law_riders_come_as_a_list(f: FieldView)
    ensures
        f.name == "Passengers".spec_bytes() ==> (nbt::may_set(f) <==> f.tag == 9),
        f.name != "Passengers".spec_bytes() ==> (nbt::may_set(f) <==> nbt::allowed_key(f.name)),
{
    let keys = nbt::allowed_entity_keys();
    assert(keys[10].spec_bytes() == "Passengers".spec_bytes());
}

/// How many bytes a number takes, by its type.
pub open spec fn number_width(tag: u8) -> int {
    if tag == 1 {
        1
    } else if tag == 2 {
        2
    } else if tag == 3 || tag == 5 {
        4
    } else {
        8
    }
}

/// How many bytes an item of an array takes, by the array's type.
pub open spec fn item_width(tag: u8) -> int {
    if tag == 7 {
        1
    } else if tag == 11 {
        4
    } else {
        8
    }
}

/// A number takes its own bytes and no other: one, two, four or eight by its type. Where they do
/// not stand, it is refused.
pub proof fn law_numbers_are_measured(d: Seq<u8>, p: int, tag: u8, depth: nat)
    requires
        1 <= tag <= 6,
        depth <= 512,
        0 <= p <= d.len(),
    ensures
        ({
            let r = nbt::past_payload(d, p, tag, depth);
            let end = p + number_width(tag);
            &&& end <= d.len() ==> r == (Ok::<(), Error>(()), end)
            &&& end > d.len() ==> r == (Err::<(), Error>(Error::Eof), p)
        }),
{
}

/// An array takes four bytes of length and its items, and a string two bytes of length and its
/// bytes.
pub proof fn law_arrays_are_measured(d: Seq<u8>, p: int, tag: u8, n: i32, s: Seq<u8>, depth: nat)
    requires
        tag == 7 || tag == 11 || tag == 12,
        depth <= 512,
        n >= 0,
        s.len() < 0x1_0000,
    ensures
        wire::stands(d, p, wire::i32_bytes(n)) && p + 4 + n * item_width(tag) <= d.len()
            ==> nbt::past_payload(d, p, tag, depth) == (
            Ok::<(), Error>(()),
            p + 4 + n * item_width(tag),
        ),
        wire::stands(d, p, wire::to_be(s.len(), 2) + s) ==> nbt::past_payload(d, p, 8, depth) == (
            Ok::<(), Error>(()),
            p + 2 + s.len(),
        ),
{
    if wire::stands(d, p, wire::i32_bytes(n)) {
        wire::law_i32_round_trip(d, p, n);
    }
    if wire::stands(d, p, wire::to_be(s.len(), 2) + s) {
        wire::lemma_to_be_len(s.len(), 2);
        wire::lemma_stands_split(d, p, wire::to_be(s.len(), 2), s);
        wire::law_u16_round_trip(d, p, s.len() as u16);
    }
}

/// A list takes the type of its items, four bytes of length, and its items one behind the other,
/// a level deeper. Items without a payload take nothing.
pub proof fn law_lists_are_measured(d: Seq<u8>, p: int, element: u8, n: i32, depth: nat)
    requires
        depth <= 512,
        n >= 0,
        wire::stands(d, p, seq![element] + wire::i32_bytes(n)),
    ensures
        element == 0 ==> nbt::past_payload(d, p, 9, depth) == (Ok::<(), Error>(()), p + 5),
        element != 0 ==> nbt::past_payload(d, p, 9, depth) == nbt::past_items(
            d,
            p + 5,
            element,
            n as nat,
            depth + 1,
        ),
{
    wire::lemma_stands_split(d, p, seq![element], wire::i32_bytes(n));
    wire::law_u8_round_trip(d, p, element);
    wire::law_i32_round_trip(d, p + 1, n);
}

/// Items follow each other: so many and then some more are passed over as all of them.
pub proof fn law_items_follow_each_other(
    d: Seq<u8>,
    p: int,
    element: u8,
    a: nat,
    b: nat,
    depth: nat,
)
    ensures
        nbt::past_items(d, p, element, 0, depth) == (Ok::<(), Error>(()), p),
        nbt::past_items(d, p, element, 1, depth) == match nbt::past_payload(d, p, element, depth) {
            (Ok(()), q) => (Ok(()), q),
            (Err(e), q) => (Err(e), q),
        },
        nbt::past_items(d, p, element, a + b, depth) == match nbt::past_items(
            d,
            p,
            element,
            a,
            depth,
        ) {
            (Ok(()), q) => nbt::past_items(d, q, element, b, depth),
            (Err(e), q) => (Err(e), q),
        },
    decreases a,
{
    reveal_with_fuel(nbt::past_items, 2);
    if a > 0 {
        if let (Ok(()), q) = nbt::past_payload(d, p, element, depth) {
            law_items_follow_each_other(d, q, element, (a - 1) as nat, b, depth);
            assert((a + b - 1) as nat == (a - 1) as nat + b);
        }
    }
}

/// A compound takes its fields and the end marker: a type, a name and a payload each, a level
/// deeper.
pub proof fn law_compounds_are_measured(
    d: Seq<u8>,
    p: int,
    tag: u8,
    name: Seq<u8>,
    q: int,
    depth: nat,
)
    requires
        name.len() < 0x1_0000,
    ensures
        wire::stands(d, p, seq![0u8]) ==> nbt::past_entries(d, p, depth) == (
            Ok::<(), Error>(()),
            p + 1,
        ),
        wire::stands(d, p, seq![tag] + wire::to_be(name.len(), 2) + name) && tag != 0
            && nbt::past_payload(d, p + 3 + name.len(), tag, depth) == (Ok::<(), Error>(()), q) && p
            < q <= d.len() ==> nbt::past_entries(d, p, depth) == nbt::past_entries(d, q, depth),
        depth <= 512 ==> nbt::past_payload(d, p, 10, depth) == nbt::past_entries(d, p, depth + 1),
{
    if wire::stands(d, p, seq![0u8]) {
        wire::law_u8_round_trip(d, p, 0);
    }
    let len = wire::to_be(name.len(), 2);
    if wire::stands(d, p, seq![tag] + len + name) {
        wire::lemma_to_be_len(name.len(), 2);
        wire::lemma_stands_split(d, p, seq![tag] + len, name);
        wire::lemma_stands_split(d, p, seq![tag], len);
        wire::law_u8_round_trip(d, p, tag);
        wire::law_u16_round_trip(d, p + 1, name.len() as u16);
    }
}

/// Values may be nested 512 levels deep and no deeper, and there are twelve types of them.
pub proof fn law_nesting_is_limited(d: Seq<u8>, p: int, tag: u8, depth: nat)
    requires
        depth <= usize::MAX,
    ensures
        depth > 512 ==> nbt::past_payload(d, p, tag, depth) == (
            Err::<(), Error>(
                Error::TooLarge { what: "nbt nesting", len: depth as usize, max: 512 },
            ),
            p,
        ),
        depth <= 512 && tag > 12 ==> nbt::past_payload(d, p, tag, depth) == (
            Err::<(), Error>(
                Error::TooLarge { what: "nbt tag type", len: tag as usize, max: 12 },
            ),
            p,
        ),
        depth <= 512 && tag == 0 ==> nbt::past_payload(d, p, tag, depth) == (
            Ok::<(), Error>(()),
            p,
        ),
{
}

/// Whether the field at `i` is the first of its name.
pub open spec fn is_first_named(fields: Seq<FieldView>, i: int, name: Seq<u8>) -> bool {
    &&& 0 <= i < fields.len()
    &&& fields[i].name == name
    &&& forall|j: int| 0 <= j < i ==> (#[trigger] fields[j]).name != name
}

proof fn lemma_first_named(fields: Seq<FieldView>, i: int, name: Seq<u8>)
    ensures
        is_first_named(fields, i, name) ==> nbt::position(fields, name, 0) == Some(i),
        !names(fields, name) ==> nbt::position(fields, name, 0) is None,
{
    nbt::lemma_position(fields, name, 0);
}

/// A field that is put takes the place of the first of its name, and else comes last.
pub proof fn law_field_is_put(fields: Seq<FieldView>, i: int, f: FieldView)
    ensures
        is_first_named(fields, i, f.name) ==> nbt::with_field(fields, f) == fields.update(i, f),
        !names(fields, f.name) ==> nbt::with_field(fields, f) == fields.push(f),
{
    lemma_first_named(fields, i, f.name);
}

/// What is found under a name and a type is the first field of both, and nothing is found only
/// where there is none.
pub proof fn law_typed_field_is_the_first(fields: Seq<FieldView>, name: Seq<u8>, tag: u8)
    ensures
        match nbt::typed_position(fields, name, tag, 0) {
            Some(i) => 0 <= i < fields.len() && fields[i].name == name && fields[i].tag == tag
                && forall|j: int|
                0 <= j < i ==> (#[trigger] fields[j]).name != name || fields[j].tag != tag,
            None => forall|j: int|
                0 <= j < fields.len() ==> (#[trigger] fields[j]).name != name || fields[j].tag
                    != tag,
        },
{
    lemma_typed(fields, name, tag, 0);
}

proof fn lemma_typed(fields: Seq<FieldView>, name: Seq<u8>, tag: u8, from: int)
    requires
        0 <= from,
    ensures
        match nbt::typed_position(fields, name, tag, from) {
            Some(i) => from <= i < fields.len() && fields[i].name == name && fields[i].tag == tag
                && forall|j: int|
                from <= j < i ==> (#[trigger] fields[j]).name != name || fields[j].tag != tag,
            None => forall|j: int|
                from <= j < fields.len() ==> (#[trigger] fields[j]).name != name || fields[j].tag
                    != tag,
        },
    decreases fields.len() - from,
{
    if from < fields.len() && !(fields[from].name == name && fields[from].tag == tag) {
        lemma_typed(fields, name, tag, from + 1);
    }
}

/// A string field holds the text that was written behind its length.
pub proof fn law_string_value_is_read(s: Seq<char>)
    requires
        vstd::utf8::encode_utf8(s).len() < 0x1_0000,
    ensures
        nbt::string_value(
            wire::to_be(vstd::utf8::encode_utf8(s).len(), 2) + vstd::utf8::encode_utf8(s),
        ) == Some(s),
{
    let bytes = vstd::utf8::encode_utf8(s);
    let payload = wire::to_be(bytes.len(), 2) + bytes;
    wire::lemma_to_be_len(bytes.len(), 2);
    assert(payload.skip(2) =~= bytes);
    vstd::utf8::encode_utf8_valid_utf8(s);
    vstd::utf8::encode_utf8_decode_utf8(s);
}

/// Numbers are written one behind the other, each in its own bytes.
pub proof fn law_numbers_follow_each_other(a: Seq<u64>, b: Seq<u64>, v: u64, width: nat)
    ensures
        nbt::numbers(a + b, width) == nbt::numbers(a, width) + nbt::numbers(b, width),
        nbt::numbers(seq![v], width) == wire::to_be(v as nat, width),
        nbt::numbers(a, width).len() == a.len() * width,
    decreases b.len(), a.len(),
{
    assert(seq![v].drop_last() =~= Seq::empty());
    reveal_with_fuel(nbt::numbers, 2);
    assert(Seq::empty() + wire::to_be(v as nat, width) =~= wire::to_be(v as nat, width));
    if a.len() > 0 {
        law_numbers_follow_each_other(a.drop_last(), Seq::empty(), v, width);
        wire::lemma_to_be_len(a.last() as nat, width);
        assert((a.len() - 1) * width + width == a.len() * width) by (nonlinear_arith)
            requires
                a.len() > 0,
        ;
    } else {
        assert(a.len() * width == 0) by (nonlinear_arith)
            requires
                a.len() == 0,
        ;
    }
    if b.len() == 0 {
        assert(a + b =~= a);
        assert(nbt::numbers(a, width) + nbt::numbers(b, width) =~= nbt::numbers(a, width));
    } else {
        law_numbers_follow_each_other(a, b.drop_last(), v, width);
        assert((a + b).drop_last() =~= a + b.drop_last());
        assert(nbt::numbers(a + b, width) =~= nbt::numbers(a, width) + nbt::numbers(b, width));
    }
}

/// A change that is no compound takes the place of the first field of its name, whatever that
/// held, and else comes last.
pub proof fn law_plain_change_replaces(left: Seq<FieldView>, i: int, f: FieldView)
    requires
        f.tag != 10,
    ensures
        is_first_named(left, i, f.name) ==> nbt::merged_one(left, f) == (
            Ok::<(), Error>(()),
            left.update(i, f),
        ),
        !names(left, f.name) ==> nbt::merged_one(left, f) == (Ok::<(), Error>(()), left.push(f)),
{
    lemma_first_named(left, i, f.name);
}

/// An empty compound removes the first field of its name, and adds none.
pub proof fn law_empty_compound_removes(left: Seq<FieldView>, i: int, f: FieldView)
    requires
        f.tag == 10,
        f.payload == seq![0u8],
    ensures
        is_first_named(left, i, f.name) ==> nbt::merged_one(left, f) == (
            Ok::<(), Error>(()),
            left.remove(i),
        ),
        !names(left, f.name) ==> nbt::merged_one(left, f) == (Ok::<(), Error>(()), left),
{
    lemma_first_named(left, i, f.name);
    assert(f.payload.subrange(0, 1) =~= seq![0u8]);
    wire::law_u8_round_trip(f.payload, 0, 0);
    assert(nbt::read_entries(f.payload, 0).0 == Ok::<Seq<FieldView>, Error>(Seq::empty()));
}

/// A compound that is not empty takes the place of the first field of its name if that is no
/// compound, and comes last where there is none of its name.
pub proof fn law_compound_replaces_what_is_none(
    left: Seq<FieldView>,
    i: int,
    f: FieldView,
    changes: Seq<FieldView>,
)
    requires
        f.tag == 10,
        changes.len() > 0,
        fits(changes, 1),
        f.payload == nbt::entries_bytes(changes),
    ensures
        !names(left, f.name) ==> nbt::merged_one(left, f) == (Ok::<(), Error>(()), left.push(f)),
        is_first_named(left, i, f.name) && left[i].tag != 10 ==> nbt::merged_one(left, f) == (
            Ok::<(), Error>(()),
            left.update(i, f),
        ),
{
    lemma_first_named(left, i, f.name);
    lemma_whole_entries(changes, f.payload);
}

proof fn lemma_merged_into(
    left: Seq<FieldView>,
    i: int,
    f: FieldView,
    changes: Seq<FieldView>,
    child: Seq<FieldView>,
    outcome: Result<(), Error>,
    whole: Seq<FieldView>,
)
    requires
        f.tag == 10,
        changes.len() > 0,
        nbt::read_entries(f.payload, 0).0 == Ok::<Seq<FieldView>, Error>(changes),
        nbt::position(left, f.name, 0) == Some(i),
        left[i].tag == 10,
        nbt::read_entries(left[i].payload, 0).0 == Ok::<Seq<FieldView>, Error>(child),
        nbt::merged(child, changes) == (outcome, whole),
    ensures
        outcome is Ok ==> nbt::merged_one(left, f) == (
            Ok::<(), Error>(()),
            left.update(i, FieldView { payload: nbt::entries_bytes(whole), ..left[i] }),
        ),
        outcome matches Err(e) ==> nbt::merged_one(left, f) == (Err::<(), Error>(e), left),
{
}

proof fn lemma_whole_entries(fields: Seq<FieldView>, payload: Seq<u8>)
    requires
        fits(fields, 1),
        payload == nbt::entries_bytes(fields),
    ensures
        nbt::read_entries(payload, 0).0 == Ok::<Seq<FieldView>, Error>(fields),
{
    assert(payload.subrange(0, payload.len() as int) =~= payload);
    lemma_entries_read_back(fields, payload, 0);
}

/// A compound that is not empty is merged field by field into the first field of its name if that
/// is a compound. Where that fails, nothing changes.
pub proof fn law_compound_is_merged_into_compound(
    left: Seq<FieldView>,
    i: int,
    f: FieldView,
    changes: Seq<FieldView>,
    child: Seq<FieldView>,
)
    requires
        f.tag == 10,
        changes.len() > 0,
        fits(changes, 1),
        f.payload == nbt::entries_bytes(changes),
        fits(child, 1),
        is_first_named(left, i, f.name),
        left[i].tag == 10,
        left[i].payload == nbt::entries_bytes(child),
    ensures
        nbt::merged_one(left, f) == match nbt::merged(child, changes) {
            (Ok(()), whole) => (
                Ok::<(), Error>(()),
                left.update(
                    i,
                    FieldView { tag: 10, name: f.name, payload: nbt::entries_bytes(whole) },
                ),
            ),
            (Err(e), _) => (Err(e), left),
        },
{
    lemma_first_named(left, i, f.name);
    lemma_whole_entries(changes, f.payload);
    lemma_whole_entries(child, left[i].payload);
    let (outcome, whole) = nbt::merged(child, changes);
    lemma_merged_into(left, i, f, changes, child, outcome, whole);
}

/// Changes are merged one after the other: some and then others come to what all of them come to.
pub proof fn law_changes_are_merged_in_order(
    left: Seq<FieldView>,
    a: Seq<FieldView>,
    b: Seq<FieldView>,
    f: FieldView,
)
    ensures
        nbt::merged(left, Seq::empty()) == (Ok::<(), Error>(()), left),
        nbt::merged(left, seq![f]) == nbt::merged_one(left, f),
        nbt::merged(left, a + b) == match nbt::merged(left, a) {
            (Ok(()), next) => nbt::merged(next, b),
            (Err(e), next) => (Err(e), next),
        },
    decreases a.len(),
{
    reveal_with_fuel(nbt::merged, 2);
    assert(seq![f].skip(1) =~= Seq::empty());
    if a.len() == 0 {
        assert(a + b =~= b);
    } else {
        assert((a + b).skip(1) =~= a.skip(1) + b);
        let (outcome, next) = nbt::merged_one(left, a[0]);
        if outcome is Ok {
            law_changes_are_merged_in_order(next, a.skip(1), b, f);
        }
    }
}

/// The name of a root is taken out whatever it is, and an empty one put in. What is no compound
/// is refused.
pub proof fn law_root_name_is_taken_out(name: Seq<u8>, payload: Seq<u8>, tag: u8)
    requires
        name.len() < 0x1_0000,
    ensures
        nbt::unnamed(seq![10u8] + wire::to_be(name.len(), 2) + name + payload) == Some(
            seq![10u8] + payload,
        ),
        nbt::named(seq![10u8] + payload) == Some(seq![10u8, 0u8, 0u8] + payload),
        tag != 10 ==> nbt::unnamed(seq![tag] + payload) is None && nbt::named(
            seq![tag] + payload,
        ) is None,
{
    let len = wire::to_be(name.len(), 2);
    let d = seq![10u8] + len + name + payload;
    wire::lemma_to_be_len(name.len(), 2);
    assert(d.subrange(1, 3) =~= len);
    wire::law_u16_round_trip(d, 1, name.len() as u16);
    reveal_with_fuel(wire::to_be, 3);
    let high = wire::to_be(name.len() / 256, 1);
    assert(len =~= high.push((name.len() % 256) as u8));
    assert(high =~= seq![(name.len() / 256 % 256) as u8]);
    assert(d[1] == len[0] && d[2] == len[1]);
    assert(d.skip(3 + name.len() as int) =~= payload);
    assert((seq![10u8] + payload).skip(1) =~= payload);
}

/// A name whose bytes do not all stand is refused.
pub proof fn law_cut_root_is_refused(d: Seq<u8>)
    requires
        d.len() < 3 || d.len() < 3 + 256 * d[1] + d[2],
    ensures
        nbt::unnamed(d) is None,
{
}

/// A block entity of more than 1,048,576 bytes is refused before it is decompressed, as is any
/// where there is no dictionary. What can be decompressed to its end comes out if it holds just
/// as many bytes as were declared.
pub proof fn law_block_entity_has_its_declared_size(
    dictionaries: Seq<Seq<u8>>,
    compressed: Seq<u8>,
    size: nat,
)
    ensures
        ({
            let content = zstd::frame_content(dictionaries, compressed);
            let fault = zstd::frame_fault(dictionaries, compressed);
            let refused = zstd::frame_refusal(dictionaries, compressed);
            let r = nbt::decompressed(Some(dictionaries), compressed, size);
            &&& size > 1_048_576 ==> r is Err
            &&& nbt::decompressed(None, compressed, size) is Err
            &&& size <= 1_048_576 ==> {
                &&& refused matches Some(why) ==> r == Err::<Seq<u8>, Seq<char>>(why)
                &&& refused is None && content.len() > size ==> r is Err
                &&& refused is None && content.len() <= size ==> (fault matches Some(why) ==> r
                    == Err::<Seq<u8>, Seq<char>>(why))
                &&& refused is None && fault is None && content.len() == size ==> r == Ok::<
                    Seq<u8>,
                    Seq<char>,
                >(content)
                &&& refused is None && fault is None && content.len() < size ==> r is Err
            }
        }),
{
}

/// A stored frame starts with the magic number, its descriptor and the length of its content,
/// low byte first. Its content follows in blocks of 131,072 bytes, and whatever is left in the
/// last one, each behind three bytes: eight times its length, and one more for the last.
pub proof fn law_stored_frame_is_laid_out(data: Seq<u8>)
    requires
        data.len() < 0x1_0000_0000,
    ensures
        zstd::raw_frame(data) == seq![0x28u8, 0xB5u8, 0x2Fu8, 0xFDu8, 0xA0u8] + wire::to_le(
            data.len(),
            4,
        ) + zstd::raw_blocks(data),
        data.len() <= 131_072 ==> zstd::raw_blocks(data) == wire::to_le(8 * data.len() + 1, 3)
            + data,
        data.len() > 131_072 ==> zstd::raw_blocks(data) == wire::to_le(8 * 131_072, 3) + data.take(
            131_072,
        ) + zstd::raw_blocks(data.skip(131_072)),
{
}

/// A block entity that is refused for its size is refused with the sizes.
pub proof fn law_wrong_sizes_are_told(content: Seq<u8>, more: nat, size: nat)
    ensures
        nbt::exact_size(content, more, size) == if content.len() + more == size {
            Ok::<Seq<u8>, Seq<char>>(content)
        } else {
            Err(
                "block entity NBT size mismatch: "@ + text::decimal(content.len() + more) + " != "@
                    + text::decimal(size),
            )
        },
        nbt::too_large_text(size) == "block entity NBT too large: "@ + text::decimal(size) + " > "@
            + text::decimal(1_048_576),
{
}

/// A list of anything but compounds reads as empty if its items are whole, and nothing may stand
/// behind a list or a compound.
pub proof fn law_other_lists_read_as_empty(d: Seq<u8>, element: u8, n: i32, tail: Seq<u8>)
    requires
        d == seq![element] + wire::i32_bytes(n) + tail,
        n >= 0,
        1 <= element <= 6,
        d.len() <= usize::MAX,
    ensures
        tail.len() == n * number_width(element) ==> nbt::parsed_list(d) == Ok::<
            Seq<Seq<FieldView>>,
            Error,
        >(Seq::empty()),
        tail.len() > n * number_width(element) ==> nbt::parsed_list(d) == Err::<
            Seq<Seq<FieldView>>,
            Error,
        >(Error::Trailing((tail.len() - n * number_width(element)) as usize)),
        tail.len() < n * number_width(element) ==> nbt::parsed_list(d) == Err::<
            Seq<Seq<FieldView>>,
            Error,
        >(Error::Eof),
{
    assert(d.subrange(0, d.len() as int) =~= d);
    wire::lemma_stands_split(d, 0, seq![element] + wire::i32_bytes(n), tail);
    wire::lemma_stands_split(d, 0, seq![element], wire::i32_bytes(n));
    wire::law_u8_round_trip(d, 0, element);
    wire::law_i32_round_trip(d, 1, n);
    lemma_numbers_passed(d, 5, element, n as nat);
}

proof fn lemma_numbers_passed(d: Seq<u8>, p: int, element: u8, n: nat)
    requires
        0 <= p <= d.len(),
        1 <= element <= 6,
    ensures
        p + n * number_width(element) <= d.len() ==> nbt::past_items(d, p, element, n, 1) == (
            Ok::<(), Error>(()),
            p + n * number_width(element),
        ),
        p + n * number_width(element) > d.len() ==> nbt::past_items(d, p, element, n, 1).0 == Err::<
            (),
            Error,
        >(Error::Eof),
    decreases n,
{
    let w = number_width(element);
    if n > 0 {
        law_numbers_are_measured(d, p, element, 1);
        assert(n * w == (n - 1) * w + w) by (nonlinear_arith);
        assert((n - 1) * w >= 0) by (nonlinear_arith)
            requires
                n > 0,
                w > 0,
        ;
        if p + w <= d.len() {
            lemma_numbers_passed(d, p + w, element, (n - 1) as nat);
        }
    } else {
        assert(n * w == 0) by (nonlinear_arith)
            requires
                n == 0,
        ;
    }
}

/// The fields of a compound are read one behind the other, each with its type, its name and the
/// bytes of its payload, up to the end marker.
pub proof fn law_fields_are_read(d: Seq<u8>, p: int, tag: u8, name: Seq<u8>, q: int)
    requires
        name.len() < 0x1_0000,
    ensures
        wire::stands(d, p, seq![0u8]) ==> nbt::read_entries(d, p) == (
            Ok::<Seq<FieldView>, Error>(Seq::empty()),
            p + 1,
        ),
        wire::stands(d, p, seq![tag] + wire::to_be(name.len(), 2) + name) && tag != 0
            && nbt::past_payload(d, p + 3 + name.len(), tag, 1) == (Ok::<(), Error>(()), q) && p < q
            <= d.len() ==> nbt::read_entries(d, p) == match nbt::read_entries(d, q) {
            (Ok(rest), end) => (
                Ok::<Seq<FieldView>, Error>(
                    seq![
                        FieldView { tag, name, payload: d.subrange(p + 3 + name.len(), q) },
                    ] + rest,
                ),
                end,
            ),
            (Err(e), end) => (Err(e), end),
        },
{
    if wire::stands(d, p, seq![0u8]) {
        wire::law_u8_round_trip(d, p, 0);
    }
    let len = wire::to_be(name.len(), 2);
    if wire::stands(d, p, seq![tag] + len + name) {
        wire::lemma_to_be_len(name.len(), 2);
        wire::lemma_stands_split(d, p, seq![tag] + len, name);
        wire::lemma_stands_split(d, p, seq![tag], len);
        wire::law_u8_round_trip(d, p, tag);
        wire::law_u16_round_trip(d, p + 1, name.len() as u16);
        wire::law_take(d, p + 3, name);
    }
}

/// A compound is written as its type, its fields one behind the other, and the end marker; a list
/// of compounds as their type, four bytes of length, and each compound without its type.
pub proof fn law_compounds_are_written(a: Seq<FieldView>, f: FieldView, list: Seq<Seq<u8>>, c: Seq<u8>)
    requires
        f.name.len() < 0x1_0000,
        list.len() < 0x1_0000_0000,
    ensures
        nbt::compound_bytes(Seq::empty()) == seq![10u8, 0u8],
        nbt::compound_bytes(seq![f] + a) == seq![10u8, f.tag] + wire::to_be(f.name.len(), 2)
            + f.name + f.payload + nbt::entries_bytes(a),
        nbt::list_bytes(list) == seq![10u8] + wire::to_be(list.len(), 4) + nbt::untagged(list),
        nbt::untagged(Seq::empty()).len() == 0,
        nbt::untagged(seq![c] + list) == c.skip(1) + nbt::untagged(list),
{
    assert((seq![f] + a).skip(1) =~= a);
    assert((seq![c] + list).skip(1) =~= list);
    assert(nbt::compound_bytes(Seq::empty()) =~= seq![10u8, 0u8]);
    assert(nbt::compound_bytes(seq![f] + a) =~= seq![10u8, f.tag] + wire::to_be(f.name.len(), 2)
        + f.name + f.payload + nbt::entries_bytes(a));
}

/// The same numbers are written, however wide they are held.
pub proof fn law_widened_numbers_are_the_same(values: Seq<u32>, i: int)
    requires
        0 <= i < values.len(),
    ensures
        nbt::widened(values).len() == values.len(),
        nbt::widened(values)[i] == values[i],
{
}

/// A compound that cannot be read is not merged: the merge stops there with its error, and what
/// was merged before stays.
pub proof fn law_unreadable_change_stops_a_merge(
    left: Seq<FieldView>,
    f: FieldView,
    rest: Seq<FieldView>,
    e: Error,
)
    requires
        f.tag == 10,
        nbt::read_entries(f.payload, 0).0 == Err::<Seq<FieldView>, Error>(e),
    ensures
        nbt::merged_one(left, f) == (Err::<(), Error>(e), left),
        nbt::merged(left, seq![f] + rest) == (Err::<(), Error>(e), left),
{
    assert((seq![f] + rest)[0] == f);
}

/// Riders that cannot be read are refused with their error, and so is the entity they ride.
pub proof fn law_unreadable_riders_are_refused(f: FieldView, e: Error)
    requires
        f.name == "Passengers".spec_bytes(),
        f.tag == 9,
        nbt::parsed_list(f.payload) == Err::<Seq<Seq<FieldView>>, Error>(e),
    ensures
        nbt::sanitized(seq![f]).0 == Err::<(), Error>(e),
{
    law_riders_come_as_a_list(f);
    reveal(Seq::filter);
    let fields = seq![f];
    assert(fields.drop_last() =~= Seq::empty());
    assert(nbt::kept(Seq::empty()) =~= Seq::empty());
    assert(nbt::kept(fields) =~= fields);
    assert(fields[0] == f);
}

} // verus!
