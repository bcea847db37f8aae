//! MISB ST 0601, the Unmanned Air System (UAS) Datalink Local Set.
use vstd::prelude::*;

use crate::dataset::{encodable, encode, encode_len, spec_frame, spec_parse, tagged, DataSet, KLVReader};
use crate::error::ParseError;
use crate::global::{spec_content, spec_content_range, KLVGlobal, MINIMUM_LEN};
use crate::record::{lemma_records_round_trip, records_of, short_records};
use crate::value::{body, datum_result, decode_kind, kind_of, lemma_decode_body, Datum, Kind, Value};

verus! {

/// The universal key of the UAS Datalink Local Set (ST 0601.8 to 0601.10).
pub const LS_UNIVERSAL_KEY0601_8_10: [u8; 16] = [
    0x06, 0x0e, 0x2b, 0x34, 0x02, 0x0b, 0x01, 0x01, 0x0e, 0x01, 0x03, 0x01, 0x01, 0x00, 0x00, 0x00,
];

/// The tags of the UAS Datalink Local Set that this library decodes.
#[derive(Debug, Clone, Copy, PartialEq, Eq, Structural)]
pub enum UASDataset {
    Checksum,
    Timestamp,
    /// Angle between the longitudinal axis and true north, 0..(2^16-1) over 0..360 degrees.
    PlatformHeadingAngle,
    /// Angle between the longitudinal axis and the horizontal plane, +/-(2^15-1) over +/-20 degrees.
    PlatformPitchAngle,
    /// Angle between the transverse axis and the transverse-longitudinal plane, +/-(2^15-1)
    /// over +/-50 degrees.
    PlatformRollAngle,
    ImageSourceSensor,
    ImageCoordinateSensor,
    SensorLatitude,
    SensorLongtude,
    SensorTrueAltitude,
    SensorHorizontalFOV,
    SensorVerticalFOV,
    SensorRelativeAzimuthAngle,
    SensorRelativeElevationAngle,
    SensorRelativeRollAngle,
    SlantRange,
    /// Four bytes wide, as observed in recorded frames.
    TargetWidth,
    FrameCenterLatitude,
    FrameCenterLongitude,
    FrameCenterElevation,
    TargetLocationLatitude,
    TargetLocationLongitude,
    TargetLocationElevation,
    /// Meters per second.
    PlatformGroundSpeed,
    GroundRange,
    LSVersionNumber,
}

impl UASDataset {
    /// The tag byte.
    pub open spec fn byte_of(self) -> u8 {
        match self {
            UASDataset::Checksum => 1,
            UASDataset::Timestamp => 2,
            UASDataset::PlatformHeadingAngle => 5,
            UASDataset::PlatformPitchAngle => 6,
            UASDataset::PlatformRollAngle => 7,
            UASDataset::ImageSourceSensor => 11,
            UASDataset::ImageCoordinateSensor => 12,
            UASDataset::SensorLatitude => 13,
            UASDataset::SensorLongtude => 14,
            UASDataset::SensorTrueAltitude => 15,
            UASDataset::SensorHorizontalFOV => 16,
            UASDataset::SensorVerticalFOV => 17,
            UASDataset::SensorRelativeAzimuthAngle => 18,
            UASDataset::SensorRelativeElevationAngle => 19,
            UASDataset::SensorRelativeRollAngle => 20,
            UASDataset::SlantRange => 21,
            UASDataset::TargetWidth => 22,
            UASDataset::FrameCenterLatitude => 23,
            UASDataset::FrameCenterLongitude => 24,
            UASDataset::FrameCenterElevation => 25,
            UASDataset::TargetLocationLatitude => 40,
            UASDataset::TargetLocationLongitude => 41,
            UASDataset::TargetLocationElevation => 42,
            UASDataset::PlatformGroundSpeed => 56,
            UASDataset::GroundRange => 57,
            UASDataset::LSVersionNumber => 65,
        }
    }

    /// The tag of a byte, if the set defines one.
    pub open spec fn of_byte(b: u8) -> Option<UASDataset> {
        match b {
            1 => Some(UASDataset::Checksum),
            2 => Some(UASDataset::Timestamp),
            5 => Some(UASDataset::PlatformHeadingAngle),
            6 => Some(UASDataset::PlatformPitchAngle),
            7 => Some(UASDataset::PlatformRollAngle),
            11 => Some(UASDataset::ImageSourceSensor),
            12 => Some(UASDataset::ImageCoordinateSensor),
            13 => Some(UASDataset::SensorLatitude),
            14 => Some(UASDataset::SensorLongtude),
            15 => Some(UASDataset::SensorTrueAltitude),
            16 => Some(UASDataset::SensorHorizontalFOV),
            17 => Some(UASDataset::SensorVerticalFOV),
            18 => Some(UASDataset::SensorRelativeAzimuthAngle),
            19 => Some(UASDataset::SensorRelativeElevationAngle),
            20 => Some(UASDataset::SensorRelativeRollAngle),
            21 => Some(UASDataset::SlantRange),
            22 => Some(UASDataset::TargetWidth),
            23 => Some(UASDataset::FrameCenterLatitude),
            24 => Some(UASDataset::FrameCenterLongitude),
            25 => Some(UASDataset::FrameCenterElevation),
            40 => Some(UASDataset::TargetLocationLatitude),
            41 => Some(UASDataset::TargetLocationLongitude),
            42 => Some(UASDataset::TargetLocationElevation),
            56 => Some(UASDataset::PlatformGroundSpeed),
            57 => Some(UASDataset::GroundRange),
            65 => Some(UASDataset::LSVersionNumber),
            _ => None,
        }
    }

    /// The kind that a content of `len` bytes decodes as: the checksum is a `U8` or a
    /// `U16` by its width, every other tag has one kind.
    pub open spec fn spec_kind(self, len: nat) -> Kind {
        match self {
            UASDataset::Checksum => if len == 1 {
                Kind::U8
            } else {
                Kind::U16
            },
            UASDataset::Timestamp => Kind::Timestamp,
            UASDataset::PlatformHeadingAngle | UASDataset::SensorTrueAltitude
            | UASDataset::SensorHorizontalFOV | UASDataset::SensorVerticalFOV
            | UASDataset::FrameCenterElevation | UASDataset::TargetLocationElevation => Kind::U16,
            UASDataset::PlatformPitchAngle | UASDataset::PlatformRollAngle => Kind::I16,
            UASDataset::SensorLatitude | UASDataset::SensorLongtude
            | UASDataset::SensorRelativeElevationAngle | UASDataset::SensorRelativeRollAngle
            | UASDataset::FrameCenterLatitude | UASDataset::FrameCenterLongitude
            | UASDataset::TargetLocationLatitude | UASDataset::TargetLocationLongitude => Kind::I32,
            UASDataset::SensorRelativeAzimuthAngle | UASDataset::SlantRange
            | UASDataset::TargetWidth | UASDataset::GroundRange => Kind::U32,
            UASDataset::ImageSourceSensor | UASDataset::ImageCoordinateSensor => Kind::String,
            UASDataset::PlatformGroundSpeed | UASDataset::LSVersionNumber => Kind::U8,
        }
    }

    /// The kind that a content of `len` bytes decodes as.
    pub fn kind(&self, len: usize) -> (r: Kind)
        ensures
            r == self.spec_kind(len as nat),
    {
        match self {
            UASDataset::Checksum => if len == 1 {
                Kind::U8
            } else {
                Kind::U16
            },
            UASDataset::Timestamp => Kind::Timestamp,
            UASDataset::PlatformHeadingAngle | UASDataset::SensorTrueAltitude
            | UASDataset::SensorHorizontalFOV | UASDataset::SensorVerticalFOV
            | UASDataset::FrameCenterElevation | UASDataset::TargetLocationElevation => Kind::U16,
            UASDataset::PlatformPitchAngle | UASDataset::PlatformRollAngle => Kind::I16,
            UASDataset::SensorLatitude | UASDataset::SensorLongtude
            | UASDataset::SensorRelativeElevationAngle | UASDataset::SensorRelativeRollAngle
            | UASDataset::FrameCenterLatitude | UASDataset::FrameCenterLongitude
            | UASDataset::TargetLocationLatitude | UASDataset::TargetLocationLongitude => Kind::I32,
            UASDataset::SensorRelativeAzimuthAngle | UASDataset::SlantRange
            | UASDataset::TargetWidth | UASDataset::GroundRange => Kind::U32,
            UASDataset::ImageSourceSensor | UASDataset::ImageCoordinateSensor => Kind::String,
            UASDataset::PlatformGroundSpeed | UASDataset::LSVersionNumber => Kind::U8,
        }
    }

    /// Whether a content of `len` bytes is acceptable: the checksum takes 1 or 2 bytes,
    /// strings any length, every other tag exactly its width.
    pub open spec fn accepts_length(self, len: nat) -> bool {
        match self {
            UASDataset::Checksum => len == 1 || len == 2,
            _ => match self.spec_kind(len).spec_width() {
                Some(w) => len == w,
                None => true,
            },
        }
    }
}

impl DataSet for UASDataset {
    open spec fn spec_key() -> Seq<u8> {
        LS_UNIVERSAL_KEY0601_8_10@
    }

    open spec fn spec_from_byte(b: u8) -> Option<Self> {
        UASDataset::of_byte(b)
    }

    open spec fn spec_as_byte(&self) -> u8 {
        self.byte_of()
    }

    open spec fn spec_expect_length(&self, len: nat) -> bool {
        self.accepts_length(len)
    }

    open spec fn spec_value(&self, v: Seq<u8>) -> Result<Datum, ParseError> {
        decode_kind(self.spec_kind(v.len()), v)
    }

    fn key() -> (r: [u8; 16]) {
        LS_UNIVERSAL_KEY0601_8_10
    }

    fn from_byte(b: u8) -> (r: Option<Self>) {
        match b {
            1 => Some(UASDataset::Checksum),
            2 => Some(UASDataset::Timestamp),
            5 => Some(UASDataset::PlatformHeadingAngle),
            6 => Some(UASDataset::PlatformPitchAngle),
            7 => Some(UASDataset::PlatformRollAngle),
            11 => Some(UASDataset::ImageSourceSensor),
            12 => Some(UASDataset::ImageCoordinateSensor),
            13 => Some(UASDataset::SensorLatitude),
            14 => Some(UASDataset::SensorLongtude),
            15 => Some(UASDataset::SensorTrueAltitude),
            16 => Some(UASDataset::SensorHorizontalFOV),
            17 => Some(UASDataset::SensorVerticalFOV),
            18 => Some(UASDataset::SensorRelativeAzimuthAngle),
            19 => Some(UASDataset::SensorRelativeElevationAngle),
            20 => Some(UASDataset::SensorRelativeRollAngle),
            21 => Some(UASDataset::SlantRange),
            22 => Some(UASDataset::TargetWidth),
            23 => Some(UASDataset::FrameCenterLatitude),
            24 => Some(UASDataset::FrameCenterLongitude),
            25 => Some(UASDataset::FrameCenterElevation),
            40 => Some(UASDataset::TargetLocationLatitude),
            41 => Some(UASDataset::TargetLocationLongitude),
            42 => Some(UASDataset::TargetLocationElevation),
            56 => Some(UASDataset::PlatformGroundSpeed),
            57 => Some(UASDataset::GroundRange),
            65 => Some(UASDataset::LSVersionNumber),
            _ => None,
        }
    }

    fn as_byte(&self) -> (r: u8) {
        match self {
            UASDataset::Checksum => 1,
            UASDataset::Timestamp => 2,
            UASDataset::PlatformHeadingAngle => 5,
            UASDataset::PlatformPitchAngle => 6,
            UASDataset::PlatformRollAngle => 7,
            UASDataset::ImageSourceSensor => 11,
            UASDataset::ImageCoordinateSensor => 12,
            UASDataset::SensorLatitude => 13,
            UASDataset::SensorLongtude => 14,
            UASDataset::SensorTrueAltitude => 15,
            UASDataset::SensorHorizontalFOV => 16,
            UASDataset::SensorVerticalFOV => 17,
            UASDataset::SensorRelativeAzimuthAngle => 18,
            UASDataset::SensorRelativeElevationAngle => 19,
            UASDataset::SensorRelativeRollAngle => 20,
            UASDataset::SlantRange => 21,
            UASDataset::TargetWidth => 22,
            UASDataset::FrameCenterLatitude => 23,
            UASDataset::FrameCenterLongitude => 24,
            UASDataset::FrameCenterElevation => 25,
            UASDataset::TargetLocationLatitude => 40,
            UASDataset::TargetLocationLongitude => 41,
            UASDataset::TargetLocationElevation => 42,
            UASDataset::PlatformGroundSpeed => 56,
            UASDataset::GroundRange => 57,
            UASDataset::LSVersionNumber => 65,
        }
    }

    fn expect_length(&self, len: usize) -> (r: bool) {
        match self {
            UASDataset::Checksum => len == 1 || len == 2,
            _ => match self.kind(len).width() {
                Some(w) => len == w,
                None => true,
            },
        }
    }

    fn value(&self, v: &[u8]) -> (r: Result<Value, ParseError>) {
        let k = self.kind(v.len());
        Value::decode(k, v)
    }
}

/// Every tag byte that the set defines maps back to its tag, and every tag to its byte.
pub proof fn lemma_tag_bytes(t: UASDataset, b: u8)
    ensures
        UASDataset::of_byte(t.byte_of()) == Some(t),
        UASDataset::of_byte(b) matches Some(u) ==> u.byte_of() == b,
{
}

/// A value of the kind that a tag carries is accepted by the tag, and decoding its body
/// under the tag gives the value back.
pub proof fn lemma_uas_value_round_trip(tag: UASDataset, v: Value)
    requires
        kind_of(v@) == tag.spec_kind(body(v@).len()),
    ensures
        tag.spec_expect_length(body(v@).len()),
        tag.spec_value(body(v@)) == Ok::<Datum, ParseError>(v@),
{
    lemma_decode_body(v@);
    match v@ {
        Datum::U16(x) => crate::be::lemma_be_bytes_len(x as nat, 2),
        Datum::I16(x) => crate::be::lemma_be_bytes_len((x as u16) as nat, 2),
        Datum::U32(x) => crate::be::lemma_be_bytes_len(x as nat, 4),
        Datum::I32(x) => crate::be::lemma_be_bytes_len((x as u32) as nat, 4),
        Datum::Timestamp(x) => crate::be::lemma_be_bytes_len(x as nat, 8),
        _ => {},
    }
}

/// Decodes records from the `i`-th on, after the pairs in `acc`; the first record that
/// does not decode gives the error.
pub open spec fn uas_records_from(recs: Seq<(u8, Seq<u8>)>, i: int, acc: Seq<(UASDataset, Datum)>) -> Result<
    Seq<(UASDataset, Datum)>,
    ParseError,
>
    decreases recs.len() - i,
{
    if i < 0 || i >= recs.len() {
        Ok(acc)
    } else {
        match spec_parse::<UASDataset>(recs[i]) {
            Err(e) => Err(e),
            Ok(d) => uas_records_from(
                recs,
                i + 1,
                acc.push((UASDataset::of_byte(recs[i].0)->Some_0, d)),
            ),
        }
    }
}

/// What a whole UAS Datalink frame decodes to: `BufferTooShort` below the minimal frame,
/// `InvalidKey` for another universal key, the length field's error, `BufferTooShort`
/// when the content runs past the end of `buf`, then each record in order with its tag
/// and value, or the first record's error.
pub open spec fn spec_decode_uasdls(buf: Seq<u8>) -> Result<Seq<(UASDataset, Datum)>, ParseError> {
    if buf.len() < MINIMUM_LEN {
        Err(ParseError::BufferTooShort)
    } else if buf.subrange(0, 16) != LS_UNIVERSAL_KEY0601_8_10@ {
        Err(ParseError::InvalidKey)
    } else {
        match spec_content_range(buf) {
            Err(e) => Err(e),
            Ok((_, end)) => if end > buf.len() {
                Err(ParseError::BufferTooShort)
            } else {
                uas_records_from(records_of(spec_content(buf)), 0, seq![])
            },
        }
    }
}

/// The view of decoded pairs.
pub open spec fn pair_views(v: Seq<(UASDataset, Value)>) -> Seq<(UASDataset, Datum)> {
    v.map_values(|p: (UASDataset, Value)| (p.0, p.1@))
}

/// Decodes a whole UAS Datalink frame into its records, in order.
pub fn decode_uasdls(buf: &[u8]) -> (r: Result<Vec<(UASDataset, Value)>, ParseError>)
    ensures
        match spec_decode_uasdls(buf@) {
            Err(e) => r == Err::<Vec<(UASDataset, Value)>, ParseError>(e),
            Ok(pairs) => r matches Ok(v) && pair_views(v@) == pairs,
        },
{
    let g = match KLVGlobal::try_from_bytes(buf) {
        Ok(g) => g,
        Err(e) => return Err(e),
    };
    if !g.key_is(&LS_UNIVERSAL_KEY0601_8_10) {
        return Err(ParseError::InvalidKey);
    }
    match g.content_range() {
        Err(e) => return Err(e),
        Ok((_, end)) => {
            if end > buf.len() {
                return Err(ParseError::BufferTooShort);
            }
        },
    }
    let mut reader = KLVReader::<UASDataset>::from_bytes(g.content());
    let ghost recs = records_of(spec_content(buf@));
    let mut out: Vec<(UASDataset, Value)> = Vec::new();
    let ghost mut i: int = 0;
    assert(pair_views(out@) =~= Seq::<(UASDataset, Datum)>::empty());
    assert(spec_decode_uasdls(buf@) == uas_records_from(recs, 0, seq![]));
    loop
        invariant
            0 <= i <= recs.len(),
            spec_decode_uasdls(buf@) == uas_records_from(recs, 0, seq![]),
            reader.remaining() == recs.skip(i),
            uas_records_from(recs, 0, seq![]) == uas_records_from(recs, i, pair_views(out@)),
        decreases reader.remaining().len(),
    {
        let ghost left = reader.remaining();
        let rec = match reader.next() {
            Some(rec) => rec,
            None => {
                assert(i == recs.len());
                assert(uas_records_from(recs, i, pair_views(out@)) == Ok::<
                    Seq<(UASDataset, Datum)>,
                    ParseError,
                >(pair_views(out@)));
                return Ok(out);
            },
        };
        proof {
            assert(recs.skip(i)[0] == recs[i]);
            assert(recs.skip(i).drop_first() =~= recs.skip(i + 1));
        }
        let tag = match rec.key() {
            Ok(t) => t,
            Err(e) => return Err(e),
        };
        let v = match rec.parse() {
            Ok(v) => v,
            Err(e) => return Err(e),
        };
        let ghost before = pair_views(out@);
        out.push((tag, v));
        proof {
            assert(pair_views(out@) =~= before.push((tag, v@)));
            i = i + 1;
        }
    }
}

/// Encodes UAS Datalink records into a new frame: `Encoding` when they are not
/// encodable.
pub fn encode_uasdls(records: &[(UASDataset, Value)]) -> (r: Result<Vec<u8>, ParseError>)
    requires
        spec_frame(records@).len() <= usize::MAX,
    ensures
        !encodable(records@) ==> r == Err::<Vec<u8>, ParseError>(ParseError::Encoding),
        encodable(records@) ==> (r matches Ok(b) && b@ == spec_frame(records@)),
{
    if !crate::dataset::is_encodable(records) {
        return Err(ParseError::Encoding);
    }
    let n = encode_len(records);
    let mut buf: Vec<u8> = vec![0u8; n];
    match encode(buf.as_mut_slice(), records) {
        Ok(_) => {
            assert(buf@.skip(n as int) =~= Seq::<u8>::empty());
            assert(buf@ =~= spec_frame(records@));
            Ok(buf)
        },
        Err(e) => Err(e),
    }
}

proof fn lemma_uas_records(records: Seq<(UASDataset, Value)>, i: int)
    requires
        0 <= i <= records.len(),
        forall|k: int|
            0 <= k < records.len() ==> kind_of((#[trigger] records[k]).1@) == records[k].0.spec_kind(
                body(records[k].1@).len(),
            ),
    ensures
        uas_records_from(tagged(records), i, pair_views(records.take(i))) == Ok::<
            Seq<(UASDataset, Datum)>,
            ParseError,
        >(pair_views(records)),
    decreases records.len() - i,
{
    let t = tagged(records);
    if i == records.len() {
        assert(records.take(i) =~= records);
    } else {
        let (tag, v) = records[i];
        assert(kind_of(records[i].1@) == records[i].0.spec_kind(body(records[i].1@).len()));
        lemma_tag_bytes(tag, 0);
        lemma_uas_value_round_trip(tag, v);
        assert(t[i] == (tag.byte_of(), body(v@)));
        assert(pair_views(records.take(i)).push((tag, v@)) =~= pair_views(records.take(i + 1)));
        lemma_uas_records(records, i + 1);
    }
}

/// Encoding UAS Datalink records into a frame and decoding the frame gives the records
/// back, in order, when each value has the kind of its tag and at least one record is
/// there (an empty run makes a frame below the minimal size).
pub proof fn lemma_uas_frame_round_trip(records: Seq<(UASDataset, Value)>)
    requires
        encodable(records),
        records.len() > 0,
        spec_frame(records).len() <= usize::MAX,
        forall|k: int|
            0 <= k < records.len() ==> kind_of((#[trigger] records[k]).1@) == records[k].0.spec_kind(
                body(records[k].1@).len(),
            ),
    ensures
        spec_decode_uasdls(spec_frame(records)) == Ok::<Seq<(UASDataset, Datum)>, ParseError>(
            pair_views(records),
        ),
{
    let t = tagged(records);
    let c = short_records(t);
    let f = spec_frame(records);
    assert(c.len() >= 2) by {
        assert(t.len() > 0);
    }
    assert forall|k: int| 0 <= k < t.len() implies (#[trigger] t[k]).1.len() <= 255 by {
        assert(body(records[k].1@).len() <= 255);
    }
    lemma_records_round_trip(t);
    crate::ber::lemma_length_round_trip(c.len(), c);
    let ll = crate::ber::LengthOctet::spec_encode_len(c.len()) as int;
    assert(f.subrange(0, 16) =~= LS_UNIVERSAL_KEY0601_8_10@);
    assert(f.subrange(16, f.len() as int) =~= crate::ber::ber_encode(c.len()) + c);
    assert(f.subrange(16 + ll, 16 + ll + c.len()) =~= c);
    assert(spec_content(f) == c);
    assert(records.take(0) =~= Seq::<(UASDataset, Value)>::empty());
    assert(pair_views(records.take(0)) =~= Seq::<(UASDataset, Datum)>::empty());
    lemma_uas_records(records, 0);
}

} // verus!
