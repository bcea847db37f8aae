//! Typed templates: a record is matched against a template of a known tag and a known
//! value width, and decoded when both agree.
use vstd::prelude::*;

use crate::be::{be_value, read_be};

verus! {

#[derive(Debug, Clone, Copy, PartialEq, Eq, Structural)]
pub enum Key {
    KA,
    KB,
}

impl Key {
    pub open spec fn spec_id(self) -> u8 {
        match self {
            Key::KA => 0,
            Key::KB => 1,
        }
    }

    /// The tag byte of the key.
    pub fn id(&self) -> (r: u8)
        ensures
            r == self.spec_id(),
    {
        match self {
            Key::KA => 0,
            Key::KB => 1,
        }
    }
}

#[derive(Debug, Clone, Copy, PartialEq, Eq, Structural)]
pub enum Value {
    VA(u8),
    VB(u16),
}

impl Value {
    pub open spec fn spec_size(self) -> nat {
        match self {
            Value::VA(_) => 1,
            Value::VB(_) => 2,
        }
    }

    /// What `buf` decodes to as a value of the same variant.
    pub open spec fn spec_parse(self, buf: Seq<u8>) -> Value {
        match self {
            Value::VA(_) => Value::VA(buf[0]),
            Value::VB(_) => Value::VB(be_value(buf.subrange(0, 2)) as u16),
        }
    }

    /// The width of the variant.
    pub fn size(&self) -> (r: usize)
        ensures
            r == self.spec_size(),
    {
        match self {
            Value::VA(_) => 1,
            Value::VB(_) => 2,
        }
    }

    /// Decodes `buf` as a value of the same variant.
    pub fn parse(&self, buf: &[u8]) -> (r: Value)
        requires
            buf@.len() >= self.spec_size(),
        ensures
            r == self.spec_parse(buf@),
    {
        match self {
            Value::VA(_) => Value::VA(buf[0]),
            Value::VB(_) => Value::VB(read_be(buf, 0, 2) as u16),
        }
    }
}

/// A key and the value shape expected under it.
#[derive(Debug, Clone, Copy, PartialEq, Eq, Structural)]
pub struct Template {
    pub k: Key,
    pub v: Value,
}

impl Template {
    /// What the record at the start of `buf` decodes to under this template, with the
    /// number of bytes it takes: `None` unless the tag is the key's, the length is the
    /// value's width and the whole record is there.
    pub open spec fn spec_parse(self, buf: Seq<u8>) -> Option<(Value, usize)> {
        if buf.len() < 2 || buf[0] != self.k.spec_id() || buf[1] != self.v.spec_size() || buf.len()
            < 2 + buf[1] {
            None
        } else {
            Some((self.v.spec_parse(buf.subrange(2, buf.len() as int)), (2 + buf[1]) as usize))
        }
    }

    pub fn new(k: Key, v: Value) -> (r: Self)
        ensures
            r == (Template { k, v }),
    {
        Self { k, v }
    }

    /// Decodes the record at the start of `buf` under this template.
    pub fn parse(&self, buf: &[u8]) -> (r: Option<(Value, usize)>)
        ensures
            r == self.spec_parse(buf@),
    {
        if buf.len() < 2 || self.k.id() != buf[0] {
            return None;
        }
        let len = buf[1] as usize;
        if self.v.size() == len && len <= buf.len() - 2 {
            let rest = &buf[2..buf.len()];
            Some((self.v.parse(rest), 2 + len))
        } else {
            None
        }
    }
}

} // verus!
