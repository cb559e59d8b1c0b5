//! Descriptor and value model: the point-cloud descriptor the decoder
//! consumes and the raw value tuples it yields.
//!
//! IEEE-754 fields are carried as little-endian bit patterns (`u32` for
//! `Single`, `u64` for `Double`); the decoder passes them through untouched,
//! so re-serializing a carried pattern recovers the source bytes exactly.
//! Scaled integers are carried as the raw integer plus separate scale and
//! offset metadata (also held as `f64` bit patterns); applying the scale is
//! left to the consumer layer.

use crate::bits::bit_width;
use vstd::prelude::*;

verus! {

/// Semantic name of one prototype field.
#[derive(Clone, Copy, PartialEq, Eq, Structural, Debug)]
pub enum RecordName {
    CartesianX,
    CartesianY,
    CartesianZ,
    CartesianInvalidState,
    SphericalRange,
    SphericalAzimuth,
    SphericalElevation,
    SphericalInvalidState,
    Intensity,
    IsIntensityInvalid,
    ColorRed,
    ColorGreen,
    ColorBlue,
    IsColorInvalid,
    RowIndex,
    ColumnIndex,
    ReturnCount,
    ReturnIndex,
    TimeStamp,
    IsTimeStampInvalid,
}

/// Encoded kind of one prototype field.  Bounds of `Single` and `Double`
/// fields, and the scale and offset of `ScaledInteger` fields, are IEEE-754
/// bit patterns; the decoder never interprets them.
#[derive(Clone, Copy, PartialEq, Debug)]
pub enum RecordDataType {
    /// IEEE-754 32-bit passthrough; 4 bytes per value, little-endian.
    Single { min: Option<u32>, max: Option<u32> },
    /// IEEE-754 64-bit passthrough; 8 bytes per value, little-endian.
    Double { min: Option<u64>, max: Option<u64> },
    /// Bit-packed unsigned offset from `min`, scaled by the consumer.
    ScaledInteger { min: i64, max: i64, scale: u64, offset: u64 },
    /// Bit-packed unsigned offset from `min`.
    Integer { min: i64, max: i64 },
}

/// One field of the prototype.
#[derive(Clone, Copy, PartialEq, Debug)]
pub struct Record {
    pub name: RecordName,
    pub data_type: RecordDataType,
}

/// The point-cloud descriptor, as produced by the XML directory collaborator.
#[derive(Clone, Debug)]
pub struct PointCloud {
    /// Globally unique identifier of the cloud.
    pub guid: String,
    /// Optional display name.
    pub name: Option<String>,
    /// Number of point records the file declares.
    pub records: u64,
    /// Physical byte offset of the compressed-vector section header.
    pub file_offset: u64,
    /// Ordered schema of one point.
    pub prototype: Vec<Record>,
}

/// One decoded scalar.  The variant matches the field's `RecordDataType`;
/// `Single` and `Double` hold the IEEE-754 bit pattern.
#[derive(Clone, Copy, PartialEq, Eq, Structural, Debug)]
pub enum RecordValue {
    Single(u32),
    Double(u64),
    ScaledInteger(i64),
    Integer(i64),
}

/// One decoded point: an ordered tuple of values, one per prototype field.
pub type RawValues = Vec<RecordValue>;

/// A declared integer range is decodable when it is not inverted and spans
/// at most `2^63` representable values.
pub open spec fn int_range_valid(min: i64, max: i64) -> bool {
    &&& min <= max
    &&& max - min < 0x8000000000000000
}

/// Bit width of a bit-packed field spanning `[min, max]`:
/// `ceil(log2(max - min + 1))`.
pub open spec fn int_bits(min: i64, max: i64) -> nat {
    if min <= max {
        bit_width((max - min) as nat)
    } else {
        0
    }
}

/// An integer-kind field declaring `max < min`.
pub open spec fn dt_inverted(dt: RecordDataType) -> bool {
    match dt {
        RecordDataType::ScaledInteger { min, max, .. } => min > max,
        RecordDataType::Integer { min, max } => min > max,
        _ => false,
    }
}

/// An integer-kind field declaring more than `2^63` representable values.
pub open spec fn dt_oversized(dt: RecordDataType) -> bool {
    match dt {
        RecordDataType::ScaledInteger { min, max, .. } => min <= max && max - min
            >= 0x8000000000000000,
        RecordDataType::Integer { min, max } => min <= max && max - min >= 0x8000000000000000,
        _ => false,
    }
}

/// The field's declared range, if it has one, is decodable.
pub open spec fn dt_range_ok(dt: RecordDataType) -> bool {
    !dt_inverted(dt) && !dt_oversized(dt)
}

/// Whether a field of this type occupies bits on the wire.  Degenerate
/// integer fields with `min == max` contribute no bits: their constant value
/// is synthesized when a point is assembled.
pub open spec fn dt_contributes(dt: RecordDataType) -> bool {
    match dt {
        RecordDataType::Single { .. } => true,
        RecordDataType::Double { .. } => true,
        RecordDataType::ScaledInteger { min, max, .. } => min != max,
        RecordDataType::Integer { min, max } => min != max,
    }
}

/// The value synthesized for a zero-bit constant field.
pub open spec fn dt_constant_value(dt: RecordDataType) -> RecordValue {
    match dt {
        RecordDataType::Single { .. } => RecordValue::Single(0),
        RecordDataType::Double { .. } => RecordValue::Double(0),
        RecordDataType::ScaledInteger { min, .. } => RecordValue::ScaledInteger(min),
        RecordDataType::Integer { min, .. } => RecordValue::Integer(min),
    }
}

/// A value is well-typed for a field when its variant matches the field's
/// kind and, for integer kinds, it lies inside the declared range.
pub open spec fn value_matches(v: RecordValue, dt: RecordDataType) -> bool {
    match dt {
        RecordDataType::Single { .. } => v is Single,
        RecordDataType::Double { .. } => v is Double,
        RecordDataType::ScaledInteger { min, max, .. } => v matches RecordValue::ScaledInteger(x)
            && min <= x <= max,
        RecordDataType::Integer { min, max } => v matches RecordValue::Integer(x) && min <= x
            <= max,
    }
}

} // verus!
