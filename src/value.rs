//! The payloads a property can hold, and the small records built from them.
use vstd::prelude::*;

verus! {

/// Three floating-point components, each held as its IEEE-754 bit pattern.
///
/// The registry never does arithmetic on a payload; it only stores, copies
/// and hands values back, so the bit pattern is all it needs to keep.
#[derive(Clone, Copy, Debug, PartialEq, Eq)]
pub struct Vec3Bits {
    pub x: u32,
    pub y: u32,
    pub z: u32,
}

/// The closed set of payloads a property can hold.
///
/// `Float` holds the bit pattern of an `f32`, as `f32::to_bits` gives it.
#[derive(Clone, Debug, PartialEq)]
pub enum PropertyValue {
    Absent,
    Bool(bool),
    String(String),
    Color(Vec3Bits),
    Vec3(Vec3Bits),
    Float(u32),
}

impl PropertyValue {
    /// A copy of this value, equal to it in every field.
    pub fn duplicate(&self) -> (r: PropertyValue)
        ensures
            r == *self,
    {
        match self {
            PropertyValue::Absent => PropertyValue::Absent,
            PropertyValue::Bool(b) => PropertyValue::Bool(*b),
            PropertyValue::String(s) => PropertyValue::String(s.clone()),
            PropertyValue::Color(c) => PropertyValue::Color(*c),
            PropertyValue::Vec3(v) => PropertyValue::Vec3(*v),
            PropertyValue::Float(f) => PropertyValue::Float(*f),
        }
    }
}

/// The name of a property, such as `ship.velocity`.
#[derive(Clone, Debug)]
pub struct PropertyName(pub String);

/// A value published for a name, applied to every store and access of that
/// name during the next event pass.
#[derive(Debug)]
pub struct PropertyUpdateEvent {
    pub name: String,
    pub value: PropertyValue,
}

impl PropertyUpdateEvent {
    pub fn new(name: String, value: PropertyValue) -> (r: PropertyUpdateEvent)
        ensures
            r.name == name,
            r.value == value,
    {
        PropertyUpdateEvent { name, value }
    }
}

/// A consumer's cached copy of one property's value.
pub struct PropertyAccess {
    pub cache: PropertyValue,
}

impl Default for PropertyAccess {
    fn default() -> (r: PropertyAccess)
        ensures
            r.cache == PropertyValue::Absent,
    {
        PropertyAccess { cache: PropertyValue::Absent }
    }
}

} // verus!
