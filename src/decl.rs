//! Record declarations: what a record type declares to the reflective codec.
use vstd::prelude::*;

use crate::value::{Datum, Kind, Value};

verus! {

/// How a field treats absence.
#[derive(Debug, Clone, Copy, PartialEq, Eq, Structural)]
pub enum Presence {
    /// The field always has a value.
    Required,
    /// The field may be absent; an absent value is written as the tag with a zero length.
    Optional,
    /// The field may be absent; an absent value is not written at all.
    SkipIfNone,
}

/// One field: its tag byte, the kind its value decodes as, and how it treats absence.
#[derive(Debug, Clone, Copy, PartialEq, Eq, Structural)]
pub struct FieldDecl {
    pub tag: u8,
    pub kind: Kind,
    pub presence: Presence,
}

/// A record type: the 16-byte name written as the universal key, and its fields in
/// declaration order.
#[derive(Debug)]
pub struct RecordDecl {
    pub name: Vec<u8>,
    pub fields: Vec<FieldDecl>,
}

/// The view of field values.
pub open spec fn views(values: Seq<Option<Value>>) -> Seq<Option<Datum>> {
    values.map_values(|o: Option<Value>| opt_view(o))
}

pub open spec fn opt_view(o: Option<Value>) -> Option<Datum> {
    match o {
        Some(v) => Some(v@),
        None => None,
    }
}

/// The tags of the first `i` fields.
pub open spec fn tags_before(fields: Seq<FieldDecl>, i: int) -> Seq<u8> {
    fields.take(i).map_values(|f: FieldDecl| f.tag)
}

/// Whether no two fields share a tag.
pub open spec fn distinct_tags(fields: Seq<FieldDecl>) -> bool {
    forall|i: int, j: int|
        0 <= i < fields.len() && 0 <= j < fields.len() && i != j ==> #[trigger] fields[i].tag
            != #[trigger] fields[j].tag
}

} // verus!
