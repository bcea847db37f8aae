//! What the record serializer and deserializer guarantee together.
use vstd::prelude::*;

use crate::ber::{ber_decode, ber_encode, lemma_length_round_trip, LengthOctet, MAX_CONTENT_LEN};
use crate::de::{de_content, de_step, empty_slots, find_from, first_missing, spec_from_bytes, spec_struct};
use crate::decl::{distinct_tags, tags_before, FieldDecl, Presence};
use crate::error::ParseError;
use crate::se::{field_piece, ser_from, ser_step, spec_to_bytes};
use crate::value::{body, decode_kind, kind_of, lemma_decode_body, Datum, NANOS_PER_SEC};

verus! {

/// Whether `v` is a value of the field `f`: of its kind, present where it is required.
pub open spec fn field_admits(f: FieldDecl, v: Option<Datum>) -> bool {
    match v {
        None => f.presence != Presence::Required,
        Some(d) => kind_of(d) == f.kind && (d matches Datum::Duration { nanos, .. } ==> nanos
            < NANOS_PER_SEC),
    }
}

/// Whether `vals` hold one value of each field of `fields`.
pub open spec fn well_typed(fields: Seq<FieldDecl>, vals: Seq<Option<Datum>>) -> bool {
    &&& vals.len() == fields.len()
    &&& forall|i: int| 0 <= i < fields.len() ==> field_admits(#[trigger] fields[i], vals[i])
}

/// Whether no optional field holds a present value with an empty body (such a value is
/// written exactly as an absent one).
pub open spec fn no_empty_optional(fields: Seq<FieldDecl>, vals: Seq<Option<Datum>>) -> bool {
    forall|i: int|
        0 <= i < fields.len() && (#[trigger] fields[i]).presence != Presence::Required
            && vals[i] is Some ==> body(vals[i]->Some_0).len() > 0
}

/// The bytes that a field contributes to a frame.
pub open spec fn piece(f: FieldDecl, v: Option<Datum>) -> Seq<u8> {
    if f.presence == Presence::SkipIfNone && v is None {
        seq![]
    } else {
        match v {
            None => seq![f.tag, 0u8],
            Some(d) => seq![f.tag] + ber_encode(body(d).len()) + body(d),
        }
    }
}

/// The bytes of the fields from the `i`-th on.
pub open spec fn pieces_from(fields: Seq<FieldDecl>, vals: Seq<Option<Datum>>, i: int) -> Seq<u8>
    decreases fields.len() - i,
{
    if i < 0 || i >= fields.len() {
        seq![]
    } else {
        piece(fields[i], vals[i]) + pieces_from(fields, vals, i + 1)
    }
}

/// The values that a record of the fields `b` takes from a record of the fields `a`:
/// each field of `b` takes the value of the field of `a` with its tag.
pub open spec fn project(a: Seq<FieldDecl>, b: Seq<FieldDecl>, x: Seq<Option<Datum>>) -> Seq<
    Option<Datum>,
> {
    Seq::new(b.len(), |j: int| x[find_from(a, b[j].tag, 0)->Some_0])
}

/// Whether every field of `b` is a field of `a`.
pub open spec fn selects(a: Seq<FieldDecl>, b: Seq<FieldDecl>) -> bool {
    forall|j: int|
        0 <= j < b.len() ==> (#[trigger] find_from(a, b[j].tag, 0)) is Some && a[find_from(
            a,
            b[j].tag,
            0,
        )->Some_0] == b[j]
}

proof fn lemma_find_first(fields: Seq<FieldDecl>, t: u8, k: int, i: int)
    requires
        distinct_tags(fields),
        0 <= i <= k < fields.len(),
        fields[k].tag == t,
    ensures
        find_from(fields, t, i) == Some(k),
    decreases k - i,
{
    if i < k {
        assert(fields[i].tag != fields[k].tag);
        lemma_find_first(fields, t, k, i + 1);
    }
}

proof fn lemma_find_none(fields: Seq<FieldDecl>, t: u8, i: int)
    requires
        0 <= i <= fields.len(),
        forall|k: int| i <= k < fields.len() ==> (#[trigger] fields[k]).tag != t,
    ensures
        find_from(fields, t, i) is None,
    decreases fields.len() - i,
{
    if i < fields.len() {
        assert(fields[i].tag != t);
        lemma_find_none(fields, t, i + 1);
    }
}

proof fn lemma_none_missing(fields: Seq<FieldDecl>, slots: Seq<Option<Datum>>, j: int)
    requires
        0 <= j <= fields.len(),
        slots.len() == fields.len(),
        forall|k: int|
            j <= k < fields.len() && (#[trigger] fields[k]).presence == Presence::Required
                ==> slots[k] is Some,
    ensures
        first_missing(fields, slots, j) is None,
    decreases fields.len() - j,
{
    if j < fields.len() {
        lemma_none_missing(fields, slots, j + 1);
    }
}

proof fn lemma_piece_body(f: FieldDecl, v: Option<Datum>)
    ensures
        v matches Some(d) ==> piece(f, v).len() >= body(d).len(),
{
    if let Some(d) = v {
        lemma_length_round_trip(0, seq![]);
    }
}

/// Under distinct tags and within the size a BER length carries, the serializer
/// writes the fields' pieces one after the other.
proof fn lemma_ser_pieces(fields: Seq<FieldDecl>, vals: Seq<Option<Datum>>, i: int, out: Seq<u8>)
    requires
        distinct_tags(fields),
        vals.len() == fields.len(),
        0 <= i <= fields.len(),
        pieces_from(fields, vals, i).len() <= MAX_CONTENT_LEN,
    ensures
        ser_from(fields, vals, i, out) == Ok::<Seq<u8>, ParseError>(out + pieces_from(fields, vals, i)),
    decreases fields.len() - i,
{
    if i == fields.len() {
        assert(out + Seq::<u8>::empty() =~= out);
    } else {
        let f = fields[i];
        let t = tags_before(fields, i);
        assert(!t.contains(f.tag)) by {
            if t.contains(f.tag) {
                let k = choose|k: int| 0 <= k < t.len() && t[k] == f.tag;
                assert(fields[k].tag == f.tag);
            }
        }
        lemma_piece_body(f, vals[i]);
        assert(ser_step(f, vals[i]) == Ok::<Seq<u8>, ParseError>(piece(f, vals[i])));
        lemma_ser_pieces(fields, vals, i + 1, out + piece(f, vals[i]));
        assert(out + piece(f, vals[i]) + pieces_from(fields, vals, i + 1) =~= out + pieces_from(
            fields,
            vals,
            i,
        ));
    }
}

/// The frame of a record whose fields fit: the name, the BER length and the pieces.
proof fn lemma_to_bytes_frame(name: Seq<u8>, fields: Seq<FieldDecl>, vals: Seq<Option<Datum>>)
    requires
        name.len() == 16,
        distinct_tags(fields),
        vals.len() == fields.len(),
        pieces_from(fields, vals, 0).len() <= MAX_CONTENT_LEN,
    ensures
        spec_to_bytes(name, fields, vals) == Ok::<Seq<u8>, ParseError>(
            name + ber_encode(pieces_from(fields, vals, 0).len()) + pieces_from(fields, vals, 0),
        ),
{
    lemma_ser_pieces(fields, vals, 0, seq![]);
    assert(Seq::<u8>::empty() + pieces_from(fields, vals, 0) =~= pieces_from(fields, vals, 0));
}

/// The slots after the fields of `a` before the `i`-th were read into the fields of `b`.
pub open spec fn filled(a: Seq<FieldDecl>, b: Seq<FieldDecl>, x: Seq<Option<Datum>>, i: int, s: Seq<
    Option<Datum>,
>) -> bool {
    &&& s.len() == b.len()
    &&& forall|j: int|
        0 <= j < b.len() ==> if (#[trigger] find_from(a, b[j].tag, 0))->Some_0 < i {
            s[j] == x[find_from(a, b[j].tag, 0)->Some_0]
        } else {
            s[j] is None
        }
}

/// Reading one written field takes its value into the slot of the field of `b` with
/// its tag, if there is one.
proof fn lemma_de_piece(b: Seq<FieldDecl>, f: FieldDecl, v: Option<Datum>, rest: Seq<u8>, s: Seq<Option<Datum>>)
    requires
        field_admits(f, v),
        f.presence != Presence::Required && v is Some ==> body(v->Some_0).len() > 0,
        !(f.presence == Presence::SkipIfNone && v is None),
        (piece(f, v) + rest).len() <= MAX_CONTENT_LEN,
        find_from(b, f.tag, 0) matches Some(j) ==> b[j] == f,
    ensures
        de_content(b, piece(f, v) + rest, s) == match find_from(b, f.tag, 0) {
            None => de_content(b, rest, s),
            Some(j) => de_content(b, rest, s.update(j, v)),
        },
{
    let c = piece(f, v) + rest;
    let (len, payload) = match v {
        None => (0nat, Seq::<u8>::empty()),
        Some(d) => (body(d).len(), body(d)),
    };
    lemma_piece_body(f, v);
    lemma_length_round_trip(len, payload + rest);
    let ll = LengthOctet::spec_encode_len(len) as int;
    assert(c =~= seq![f.tag] + ber_encode(len) + payload + rest) by {
        if v is None {
            assert(ber_encode(0) =~= seq![0u8]);
        }
    }
    assert(c.subrange(1, c.len() as int) =~= ber_encode(len) + (payload + rest));
    assert(c[0] == f.tag);
    assert(c.subrange(1 + ll, 1 + ll + len) =~= payload);
    assert(c.subrange(1 + ll + len, c.len() as int) =~= rest);
    match find_from(b, f.tag, 0) {
        None => {
            assert(de_step(b, f.tag, payload, s) == Ok::<Seq<Option<Datum>>, ParseError>(s));
        },
        Some(j) => {
            if f.presence != Presence::Required && payload.len() == 0 {
                assert(v is None);
            } else {
                lemma_decode_body(v->Some_0);
            }
            assert(de_step(b, f.tag, payload, s) == Ok::<Seq<Option<Datum>>, ParseError>(
                s.update(j, v),
            ));
        },
    }
}

proof fn lemma_filled_step(
    a: Seq<FieldDecl>,
    b: Seq<FieldDecl>,
    x: Seq<Option<Datum>>,
    i: int,
    s: Seq<Option<Datum>>,
)
    requires
        distinct_tags(a),
        distinct_tags(b),
        selects(a, b),
        0 <= i < a.len(),
        x.len() == a.len(),
        filled(a, b, x, i, s),
    ensures
        find_from(b, a[i].tag, 0) matches Some(j) ==> b[j] == a[i] && filled(
            a,
            b,
            x,
            i + 1,
            s.update(j, x[i]),
        ),
        find_from(b, a[i].tag, 0) is None ==> filled(a, b, x, i + 1, s),
        find_from(b, a[i].tag, 0) matches Some(j) ==> s[j] is None,
{
    let t = a[i].tag;
    lemma_find_first(a, t, i, 0);
    crate::de::lemma_find_from_range(b, t, 0);
    match find_from(b, t, 0) {
        Some(j) => {
            assert(find_from(a, b[j].tag, 0) == Some(i));
            let s2 = s.update(j, x[i]);
            assert forall|k: int| 0 <= k < b.len() implies (if (#[trigger] find_from(
                a,
                b[k].tag,
                0,
            ))->Some_0 < i + 1 {
                s2[k] == x[find_from(a, b[k].tag, 0)->Some_0]
            } else {
                s2[k] is None
            }) by {
                assert(find_from(a, b[k].tag, 0) is Some);
                if k != j {
                    assert(b[k].tag != b[j].tag);
                    crate::de::lemma_find_from_range(a, b[k].tag, 0);
                }
            }
        },
        None => {
            assert forall|k: int| 0 <= k < b.len() implies (if (#[trigger] find_from(
                a,
                b[k].tag,
                0,
            ))->Some_0 < i + 1 {
                s[k] == x[find_from(a, b[k].tag, 0)->Some_0]
            } else {
                s[k] is None
            }) by {
                assert(find_from(a, b[k].tag, 0) is Some);
                crate::de::lemma_find_from_range(a, b[k].tag, 0);
                if find_from(a, b[k].tag, 0)->Some_0 == i {
                    lemma_find_first(b, t, k, 0);
                }
            }
        },
    }
}

proof fn lemma_de_pieces(
    a: Seq<FieldDecl>,
    b: Seq<FieldDecl>,
    x: Seq<Option<Datum>>,
    i: int,
    s: Seq<Option<Datum>>,
)
    requires
        distinct_tags(a),
        distinct_tags(b),
        selects(a, b),
        well_typed(a, x),
        no_empty_optional(a, x),
        0 <= i <= a.len(),
        pieces_from(a, x, i).len() <= MAX_CONTENT_LEN,
        filled(a, b, x, i, s),
    ensures
        de_content(b, pieces_from(a, x, i), s) == Ok::<Seq<Option<Datum>>, ParseError>(
            project(a, b, x),
        ),
    decreases a.len() - i,
{
    if i == a.len() {
        assert forall|j: int| 0 <= j < b.len() implies s[j] == project(a, b, x)[j] by {
            assert(find_from(a, b[j].tag, 0) is Some);
            crate::de::lemma_find_from_range(a, b[j].tag, 0);
        }
        assert(s =~= project(a, b, x));
    } else {
        let f = a[i];
        let v = x[i];
        let rest = pieces_from(a, x, i + 1);
        assert(field_admits(a[i], x[i]));
        lemma_filled_step(a, b, x, i, s);
        crate::de::lemma_find_from_range(b, f.tag, 0);
        if f.presence == Presence::SkipIfNone && v is None {
            assert(pieces_from(a, x, i) =~= rest);
            if let Some(j) = find_from(b, f.tag, 0) {
                assert(s.update(j, v) =~= s);
            }
            lemma_de_pieces(a, b, x, i + 1, s);
        } else {
            lemma_de_piece(b, f, v, rest, s);
            match find_from(b, f.tag, 0) {
                None => lemma_de_pieces(a, b, x, i + 1, s),
                Some(j) => lemma_de_pieces(a, b, x, i + 1, s.update(j, v)),
            }
        }
    }
}

/// The field of `a` that the `k`-th field of `b` takes its value from.
pub open spec fn source(a: Seq<FieldDecl>, b: Seq<FieldDecl>, k: int) -> int {
    find_from(a, b[k].tag, 0)->Some_0
}

/// The total length of the pieces of the fields of `a` that the fields of `b` from the
/// `k`-th on take their values from, counting only sources from the `i`-th on.
pub open spec fn chosen_len(a: Seq<FieldDecl>, b: Seq<FieldDecl>, x: Seq<Option<Datum>>, i: int, k: int) -> nat
    decreases b.len() - k,
{
    if k < 0 || k >= b.len() {
        0
    } else {
        (if source(a, b, k) >= i {
            piece(a[source(a, b, k)], x[source(a, b, k)]).len()
        } else {
            0
        }) + chosen_len(a, b, x, i, k + 1)
    }
}

proof fn lemma_chosen_step(a: Seq<FieldDecl>, b: Seq<FieldDecl>, x: Seq<Option<Datum>>, i: int, k: int)
    requires
        distinct_tags(b),
        selects(a, b),
        0 <= i < a.len(),
        0 <= k <= b.len(),
    ensures
        chosen_len(a, b, x, i, k) == chosen_len(a, b, x, i + 1, k) + (if exists|m: int|
            k <= m < b.len() && source(a, b, m) == i {
            piece(a[i], x[i]).len()
        } else {
            0
        }),
    decreases b.len() - k,
{
    if k < b.len() {
        lemma_chosen_step(a, b, x, i, k + 1);
        if source(a, b, k) == i {
            assert forall|m: int| k + 1 <= m < b.len() implies source(a, b, m) != i by {
                assert(find_from(a, b[k].tag, 0) is Some);
                assert(find_from(a, b[m].tag, 0) is Some);
                if source(a, b, m) == i {
                    assert(b[m] == a[i] && b[k] == a[i]);
                    assert(b[m].tag == b[k].tag);
                }
            }
        } else {
            if exists|m: int| k <= m < b.len() && source(a, b, m) == i {
                let m = choose|m: int| k <= m < b.len() && source(a, b, m) == i;
                assert(k + 1 <= m);
            }
        }
    }
}

proof fn lemma_chosen_none(a: Seq<FieldDecl>, b: Seq<FieldDecl>, x: Seq<Option<Datum>>, k: int)
    requires
        selects(a, b),
        0 <= k <= b.len(),
    ensures
        chosen_len(a, b, x, a.len() as int, k) == 0,
    decreases b.len() - k,
{
    if k < b.len() {
        assert(find_from(a, b[k].tag, 0) is Some);
        crate::de::lemma_find_from_range(a, b[k].tag, 0);
        lemma_chosen_none(a, b, x, k + 1);
    }
}

proof fn lemma_chosen_bound(a: Seq<FieldDecl>, b: Seq<FieldDecl>, x: Seq<Option<Datum>>, i: int)
    requires
        distinct_tags(b),
        selects(a, b),
        0 <= i <= a.len(),
    ensures
        chosen_len(a, b, x, i, 0) <= pieces_from(a, x, i).len(),
    decreases a.len() - i,
{
    if i == a.len() {
        lemma_chosen_none(a, b, x, 0);
    } else {
        lemma_chosen_bound(a, b, x, i + 1);
        lemma_chosen_step(a, b, x, i, 0);
    }
}

proof fn lemma_chosen_all(a: Seq<FieldDecl>, b: Seq<FieldDecl>, x: Seq<Option<Datum>>, k: int)
    requires
        selects(a, b),
        0 <= k <= b.len(),
    ensures
        chosen_len(a, b, x, 0, k) == pieces_from(b, project(a, b, x), k).len(),
    decreases b.len() - k,
{
    if k < b.len() {
        assert(find_from(a, b[k].tag, 0) is Some);
        crate::de::lemma_find_from_range(a, b[k].tag, 0);
        lemma_chosen_all(a, b, x, k + 1);
    }
}

/// The fields that a narrower record type selects take no more room than the whole
/// record's fields.
proof fn lemma_narrow_fits(a: Seq<FieldDecl>, b: Seq<FieldDecl>, x: Seq<Option<Datum>>)
    requires
        distinct_tags(b),
        selects(a, b),
    ensures
        pieces_from(b, project(a, b, x), 0).len() <= pieces_from(a, x, 0).len(),
{
    lemma_chosen_bound(a, b, x, 0);
    lemma_chosen_all(a, b, x, 0);
}

/// Deserializing the frame of a record as a record type whose fields are some of the
/// record's fields gives each of those fields the value it had, and serializing that
/// narrower record writes exactly the chosen fields, each as it was written before, in
/// the narrower type's declaration order. It holds for a 16-byte name, distinct tags in
/// both types, values of the declared kinds whose fields fit a BER length, and no
/// optional field present with an empty body.
pub proof fn lemma_narrowing(name: Seq<u8>, a: Seq<FieldDecl>, b: Seq<FieldDecl>, x: Seq<Option<Datum>>)
    requires
        name.len() == 16,
        distinct_tags(a),
        distinct_tags(b),
        selects(a, b),
        well_typed(a, x),
        no_empty_optional(a, x),
        pieces_from(a, x, 0).len() <= MAX_CONTENT_LEN,
    ensures
        spec_to_bytes(name, a, x) is Ok,
        spec_from_bytes(name, b, spec_to_bytes(name, a, x)->Ok_0) == Ok::<
            Seq<Option<Datum>>,
            ParseError,
        >(project(a, b, x)),
        forall|j: int|
            0 <= j < b.len() ==> #[trigger] piece(b[j], project(a, b, x)[j]) == piece(
                a[find_from(a, b[j].tag, 0)->Some_0],
                x[find_from(a, b[j].tag, 0)->Some_0],
            ),
        spec_to_bytes(name, b, project(a, b, x)) == Ok::<Seq<u8>, ParseError>(
            name + ber_encode(pieces_from(b, project(a, b, x), 0).len()) + pieces_from(
                b,
                project(a, b, x),
                0,
            ),
        ),
{
    let p = pieces_from(a, x, 0);
    let y = project(a, b, x);
    lemma_to_bytes_frame(name, a, x);
    let w = name + ber_encode(p.len()) + p;
    lemma_length_round_trip(p.len(), p);
    let ll = LengthOctet::spec_encode_len(p.len()) as int;
    assert(w.subrange(0, 16) =~= name);
    assert(w.subrange(16, w.len() as int) =~= ber_encode(p.len()) + p);
    assert(w.subrange(16 + ll, 16 + ll + p.len()) =~= p);
    let e = empty_slots(b.len());
    assert(filled(a, b, x, 0, e)) by {
        assert forall|j: int| 0 <= j < b.len() implies (if (#[trigger] find_from(a, b[j].tag, 0))->Some_0
            < 0 {
            e[j] == x[find_from(a, b[j].tag, 0)->Some_0]
        } else {
            e[j] is None
        }) by {
            crate::de::lemma_find_from_range(a, b[j].tag, 0);
        }
    }
    lemma_de_pieces(a, b, x, 0, e);
    assert forall|k: int| 0 <= k < b.len() && (#[trigger] b[k]).presence == Presence::Required implies y[k] is Some by {
        let i = find_from(a, b[k].tag, 0)->Some_0;
        crate::de::lemma_find_from_range(a, b[k].tag, 0);
        assert(field_admits(a[i], x[i]));
    }
    lemma_none_missing(b, y, 0);
    assert(spec_struct(name, b, w) == Ok::<(Seq<Option<Datum>>, int), ParseError>((y, w.len() as int)));
    assert forall|j: int| 0 <= j < b.len() implies #[trigger] piece(b[j], y[j]) == piece(
        a[find_from(a, b[j].tag, 0)->Some_0],
        x[find_from(a, b[j].tag, 0)->Some_0],
    ) by {}
    lemma_narrow_fits(a, b, x);
    assert(y.len() == b.len());
    lemma_to_bytes_frame(name, b, y);
}

/// Serializing a record and deserializing the frame as the same record type gives the
/// values back. It holds for a 16-byte name, distinct tags, values of the declared kinds
/// whose fields fit a BER length, and no optional field present with an empty body.
pub proof fn lemma_record_round_trip(name: Seq<u8>, fields: Seq<FieldDecl>, vals: Seq<Option<Datum>>)
    requires
        name.len() == 16,
        distinct_tags(fields),
        well_typed(fields, vals),
        no_empty_optional(fields, vals),
        pieces_from(fields, vals, 0).len() <= MAX_CONTENT_LEN,
    ensures
        spec_to_bytes(name, fields, vals) is Ok,
        spec_from_bytes(name, fields, spec_to_bytes(name, fields, vals)->Ok_0) == Ok::<
            Seq<Option<Datum>>,
            ParseError,
        >(vals),
{
    assert forall|j: int| 0 <= j < fields.len() implies (#[trigger] find_from(fields, fields[j].tag, 0))
        == Some(j) by {
        lemma_find_first(fields, fields[j].tag, j, 0);
    }
    assert(selects(fields, fields));
    lemma_narrowing(name, fields, fields, vals);
    assert(project(fields, fields, vals) =~= vals);
}

} // verus!
