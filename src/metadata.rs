//! Metadata records as the photo reader hands them over: a tag, the group of
//! tags it belongs to, whether it describes the thumbnail, and its value.
use vstd::prelude::*;

verus! {

/// An unsigned rational number `num / denom`.
#[derive(Debug, Clone, Copy, PartialEq, Eq, Structural)]
pub struct Rational {
    pub num: u32,
    pub denom: u32,
}

/// The value of a record: a list of rationals, or anything else.
#[derive(Debug, Clone, PartialEq, Eq)]
pub enum FieldValue {
    Rational(Vec<Rational>),
    Other,
}

/// The group of tags that a record belongs to.
#[derive(Debug, Clone, Copy, PartialEq, Eq, Structural)]
pub enum FieldContext {
    Gps,
    Other,
}

/// The tags that the extraction reads; every other tag is `Other`, with its number.
#[derive(Debug, Clone, Copy, PartialEq, Eq, Structural)]
pub enum FieldTag {
    GPSLatitude,
    GPSLongitude,
    Other(u16),
}

/// One metadata record of a photo.
#[derive(Debug, Clone, PartialEq, Eq)]
pub struct MetadataField {
    pub tag: FieldTag,
    pub context: FieldContext,
    pub thumbnail: bool,
    pub value: FieldValue,
}

} // verus!
