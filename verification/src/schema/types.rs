//! The schema type tree: physical types, converted and logical annotations,
//! repetition, and the nodes that a parsed message type is made of.

use vstd::prelude::*;
use crate::errors::ParquetError;

verus! {

/// How often a field may appear.
#[derive(Clone, Copy, Debug, PartialEq, Eq, Structural)]
pub enum Repetition {
    Required,
    Optional,
    Repeated,
}

/// The physical type named in a schema string, before a length is attached
/// to fixed-length byte arrays.
#[derive(Clone, Copy, Debug, PartialEq, Eq, Structural)]
pub enum Type {
    Boolean,
    Int32,
    Int64,
    Int96,
    Float,
    Double,
    ByteArray,
    FixedLenByteArray,
}

/// The physical type of a primitive field. A fixed-length byte array
/// carries its byte width.
#[derive(Clone, Copy, Debug, PartialEq, Eq, Structural)]
pub enum PhysicalType {
    Boolean,
    Int32,
    Int64,
    Int96,
    Float,
    Double,
    ByteArray,
    FixedLenByteArray(i32),
}

/// The converted type as the file format's metadata names it, covering
/// group and primitive annotations alike.
#[derive(Clone, Copy, Debug, PartialEq, Eq, Structural)]
pub enum ConvertedType {
    Utf8,
    MapGroup,
    MapKeyValue,
    List,
    Enum,
    Decimal,
    Date,
    TimeMillis,
    TimeMicros,
    TimestampMillis,
    TimestampMicros,
    Uint8,
    Uint16,
    Uint32,
    Uint64,
    Int8,
    Int16,
    Int32,
    Int64,
    Json,
    Bson,
    Interval,
}

/// The converted type of a primitive field. Decimal carries precision and
/// scale.
#[derive(Clone, Copy, Debug, PartialEq, Eq, Structural)]
pub enum PrimitiveConvertedType {
    Utf8,
    Enum,
    Decimal(i32, i32),
    Date,
    TimeMillis,
    TimeMicros,
    TimestampMillis,
    TimestampMicros,
    Uint8,
    Uint16,
    Uint32,
    Uint64,
    Int8,
    Int16,
    Int32,
    Int64,
    Json,
    Bson,
    Interval,
}

/// The converted type of a group field.
#[derive(Clone, Copy, Debug, PartialEq, Eq, Structural)]
pub enum GroupConvertedType {
    MapGroup,
    MapKeyValue,
    List,
}

#[derive(Clone, Copy, Debug, PartialEq, Eq, Structural)]
pub struct StringType {}

#[derive(Clone, Copy, Debug, PartialEq, Eq, Structural)]
pub struct MapType {}

#[derive(Clone, Copy, Debug, PartialEq, Eq, Structural)]
pub struct ListType {}

#[derive(Clone, Copy, Debug, PartialEq, Eq, Structural)]
pub struct EnumType {}

#[derive(Clone, Copy, Debug, PartialEq, Eq, Structural)]
pub struct DateType {}

#[derive(Clone, Copy, Debug, PartialEq, Eq, Structural)]
pub struct JsonType {}

#[derive(Clone, Copy, Debug, PartialEq, Eq, Structural)]
pub struct BsonType {}

#[derive(Clone, Copy, Debug, PartialEq, Eq, Structural)]
pub struct UUIDType {}

#[derive(Clone, Copy, Debug, PartialEq, Eq, Structural)]
pub struct NullType {}

#[derive(Clone, Copy, Debug, PartialEq, Eq, Structural)]
pub struct MilliSeconds {}

#[derive(Clone, Copy, Debug, PartialEq, Eq, Structural)]
pub struct MicroSeconds {}

/// The unit of a time or timestamp logical type.
#[derive(Clone, Copy, Debug, PartialEq, Eq, Structural)]
pub enum TimeUnit {
    MILLIS(MilliSeconds),
    MICROS(MicroSeconds),
}

/// A signed or unsigned integer logical type of a given bit width.
#[derive(Clone, Copy, Debug, PartialEq, Eq, Structural)]
pub struct IntType {
    pub bit_width: i8,
    pub is_signed: bool,
}

/// A time-of-day logical type.
#[derive(Clone, Copy, Debug, PartialEq, Eq, Structural)]
pub struct TimeType {
    pub is_adjusted_to_u_t_c: bool,
    pub unit: TimeUnit,
}

/// An instant logical type.
#[derive(Clone, Copy, Debug, PartialEq, Eq, Structural)]
pub struct TimestampType {
    pub is_adjusted_to_u_t_c: bool,
    pub unit: TimeUnit,
}

/// The logical type annotation of a field.
#[derive(Clone, Copy, Debug, PartialEq, Eq, Structural)]
pub enum LogicalType {
    STRING(StringType),
    MAP(MapType),
    LIST(ListType),
    ENUM(EnumType),
    DATE(DateType),
    TIME(TimeType),
    TIMESTAMP(TimestampType),
    INTEGER(IntType),
    UNKNOWN(NullType),
    JSON(JsonType),
    BSON(BsonType),
    UUID(UUIDType),
}

/// Name, repetition and optional field id shared by every schema node.
#[derive(Clone, Debug, PartialEq, Eq)]
pub struct FieldInfo {
    pub name: String,
    pub repetition: Repetition,
    pub id: Option<i32>,
}

/// One node of the schema tree: a primitive leaf or a group of child
/// nodes.
#[derive(Debug, PartialEq, Eq)]
pub enum ParquetType {
    PrimitiveType {
        field_info: FieldInfo,
        converted_type: Option<PrimitiveConvertedType>,
        physical_type: PhysicalType,
    },
    GroupType {
        field_info: FieldInfo,
        converted_type: Option<GroupConvertedType>,
        fields: Vec<ParquetType>,
    },
}

/// What `converted_to_primitive_converted` gives for each converted type:
/// the primitive annotation, or nothing where the converted type is a
/// group annotation or needs precision and scale.
pub open spec fn spec_primitive_converted(c: ConvertedType) -> Option<PrimitiveConvertedType> {
    match c {
        ConvertedType::Utf8 => Some(PrimitiveConvertedType::Utf8),
        ConvertedType::Enum => Some(PrimitiveConvertedType::Enum),
        ConvertedType::Date => Some(PrimitiveConvertedType::Date),
        ConvertedType::TimeMillis => Some(PrimitiveConvertedType::TimeMillis),
        ConvertedType::TimeMicros => Some(PrimitiveConvertedType::TimeMicros),
        ConvertedType::TimestampMillis => Some(PrimitiveConvertedType::TimestampMillis),
        ConvertedType::TimestampMicros => Some(PrimitiveConvertedType::TimestampMicros),
        ConvertedType::Uint8 => Some(PrimitiveConvertedType::Uint8),
        ConvertedType::Uint16 => Some(PrimitiveConvertedType::Uint16),
        ConvertedType::Uint32 => Some(PrimitiveConvertedType::Uint32),
        ConvertedType::Uint64 => Some(PrimitiveConvertedType::Uint64),
        ConvertedType::Int8 => Some(PrimitiveConvertedType::Int8),
        ConvertedType::Int16 => Some(PrimitiveConvertedType::Int16),
        ConvertedType::Int32 => Some(PrimitiveConvertedType::Int32),
        ConvertedType::Int64 => Some(PrimitiveConvertedType::Int64),
        ConvertedType::Json => Some(PrimitiveConvertedType::Json),
        ConvertedType::Bson => Some(PrimitiveConvertedType::Bson),
        ConvertedType::Interval => Some(PrimitiveConvertedType::Interval),
        ConvertedType::Decimal => None,
        ConvertedType::MapGroup => None,
        ConvertedType::MapKeyValue => None,
        ConvertedType::List => None,
    }
}

/// Maps a converted type from the file format's metadata to a primitive
/// annotation. Decimal is rejected here because it needs an explicit
/// precision and scale; the group annotations are rejected on a primitive.
pub fn converted_to_primitive_converted(c: &ConvertedType) -> (r: Result<
    PrimitiveConvertedType,
    ParquetError,
>)
    ensures
        r is Ok <==> spec_primitive_converted(*c) is Some,
        r is Ok ==> r->Ok_0 == spec_primitive_converted(*c)->0,
{
    match c {
        ConvertedType::Utf8 => Ok(PrimitiveConvertedType::Utf8),
        ConvertedType::Enum => Ok(PrimitiveConvertedType::Enum),
        ConvertedType::Date => Ok(PrimitiveConvertedType::Date),
        ConvertedType::TimeMillis => Ok(PrimitiveConvertedType::TimeMillis),
        ConvertedType::TimeMicros => Ok(PrimitiveConvertedType::TimeMicros),
        ConvertedType::TimestampMillis => Ok(PrimitiveConvertedType::TimestampMillis),
        ConvertedType::TimestampMicros => Ok(PrimitiveConvertedType::TimestampMicros),
        ConvertedType::Uint8 => Ok(PrimitiveConvertedType::Uint8),
        ConvertedType::Uint16 => Ok(PrimitiveConvertedType::Uint16),
        ConvertedType::Uint32 => Ok(PrimitiveConvertedType::Uint32),
        ConvertedType::Uint64 => Ok(PrimitiveConvertedType::Uint64),
        ConvertedType::Int8 => Ok(PrimitiveConvertedType::Int8),
        ConvertedType::Int16 => Ok(PrimitiveConvertedType::Int16),
        ConvertedType::Int32 => Ok(PrimitiveConvertedType::Int32),
        ConvertedType::Int64 => Ok(PrimitiveConvertedType::Int64),
        ConvertedType::Json => Ok(PrimitiveConvertedType::Json),
        ConvertedType::Bson => Ok(PrimitiveConvertedType::Bson),
        ConvertedType::Interval => Ok(PrimitiveConvertedType::Interval),
        ConvertedType::Decimal => Err(
            ParquetError::general(
                String::from_str("Decimal requires an explicit precision and scale"),
            ),
        ),
        ConvertedType::MapGroup | ConvertedType::MapKeyValue | ConvertedType::List => Err(
            ParquetError::general(String::from_str("Group converted type used on a primitive")),
        ),
    }
}

/// Whether a primitive physical type and an optional converted annotation
/// fit together.
pub open spec fn spec_primitive_ok(
    physical: PhysicalType,
    converted: Option<PrimitiveConvertedType>,
) -> bool {
    &&& match physical {
        PhysicalType::FixedLenByteArray(n) => n > 0,
        _ => true,
    }
    &&& match converted {
        None => true,
        Some(c) => match c {
            PrimitiveConvertedType::Utf8
            | PrimitiveConvertedType::Enum
            | PrimitiveConvertedType::Json
            | PrimitiveConvertedType::Bson => physical == PhysicalType::ByteArray,
            PrimitiveConvertedType::Decimal(p, s) => {
                &&& p >= 1
                &&& 0 <= s <= p
                &&& match physical {
                    PhysicalType::Int32 => p <= 9,
                    PhysicalType::Int64 => p <= 18,
                    PhysicalType::ByteArray => true,
                    PhysicalType::FixedLenByteArray(_) => true,
                    _ => false,
                }
            },
            PrimitiveConvertedType::Date
            | PrimitiveConvertedType::TimeMillis
            | PrimitiveConvertedType::Int8
            | PrimitiveConvertedType::Int16
            | PrimitiveConvertedType::Int32
            | PrimitiveConvertedType::Uint8
            | PrimitiveConvertedType::Uint16
            | PrimitiveConvertedType::Uint32 => physical == PhysicalType::Int32,
            PrimitiveConvertedType::TimeMicros
            | PrimitiveConvertedType::TimestampMillis
            | PrimitiveConvertedType::TimestampMicros
            | PrimitiveConvertedType::Int64
            | PrimitiveConvertedType::Uint64 => physical == PhysicalType::Int64,
            PrimitiveConvertedType::Interval => physical == PhysicalType::FixedLenByteArray(12),
        },
    }
}

impl ParquetType {
    /// The root of a schema: a group node holding the message's fields.
    pub fn from_fields(name: String, fields: Vec<ParquetType>) -> (r: ParquetType)
        ensures
            r == (ParquetType::GroupType {
                field_info: FieldInfo { name, repetition: Repetition::Optional, id: None },
                converted_type: None,
                fields,
            }),
    {
        ParquetType::GroupType {
            field_info: FieldInfo { name, repetition: Repetition::Optional, id: None },
            converted_type: None,
            fields,
        }
    }

    /// A group node with an optional repetition, converted annotation and
    /// id. A missing repetition defaults to optional.
    pub fn from_converted(
        name: String,
        fields: Vec<ParquetType>,
        repetition: Option<Repetition>,
        converted_type: Option<GroupConvertedType>,
        id: Option<i32>,
    ) -> (r: ParquetType)
        ensures
            r == (ParquetType::GroupType {
                field_info: FieldInfo {
                    name,
                    repetition: if repetition is Some {
                        repetition->0
                    } else {
                        Repetition::Optional
                    },
                    id,
                },
                converted_type,
                fields,
            }),
    {
        let rep = match repetition {
            Some(rep) => rep,
            None => Repetition::Optional,
        };
        ParquetType::GroupType {
            field_info: FieldInfo { name, repetition: rep, id },
            converted_type,
            fields,
        }
    }

    /// A primitive leaf with the default optional repetition and no
    /// annotation.
    pub fn from_physical(name: String, physical_type: PhysicalType) -> (r: ParquetType)
        ensures
            r == (ParquetType::PrimitiveType {
                field_info: FieldInfo { name, repetition: Repetition::Optional, id: None },
                converted_type: None,
                physical_type,
            }),
    {
        ParquetType::PrimitiveType {
            field_info: FieldInfo { name, repetition: Repetition::Optional, id: None },
            converted_type: None,
            physical_type,
        }
    }

    /// A primitive leaf, validated: succeeds exactly when the physical
    /// type and the converted annotation fit together.
    pub fn try_from_primitive(
        name: String,
        physical_type: PhysicalType,
        repetition: Repetition,
        converted_type: Option<PrimitiveConvertedType>,
        id: Option<i32>,
    ) -> (r: Result<ParquetType, ParquetError>)
        ensures
            r is Ok <==> spec_primitive_ok(physical_type, converted_type),
            r is Ok ==> r->Ok_0 == (ParquetType::PrimitiveType {
                field_info: FieldInfo { name, repetition, id },
                converted_type,
                physical_type,
            }),
    {
        let length_ok = match physical_type {
            PhysicalType::FixedLenByteArray(n) => n > 0,
            _ => true,
        };
        if !length_ok {
            return Err(
                ParquetError::general(
                    String::from_str("FIXED_LEN_BYTE_ARRAY length must be positive"),
                ),
            );
        }
        let converted_ok = match converted_type {
            None => true,
            Some(c) => match c {
                PrimitiveConvertedType::Utf8
                | PrimitiveConvertedType::Enum
                | PrimitiveConvertedType::Json
                | PrimitiveConvertedType::Bson => physical_type == PhysicalType::ByteArray,
                PrimitiveConvertedType::Decimal(p, s) => p >= 1 && 0 <= s && s <= p && (
                match physical_type {
                    PhysicalType::Int32 => p <= 9,
                    PhysicalType::Int64 => p <= 18,
                    PhysicalType::ByteArray => true,
                    PhysicalType::FixedLenByteArray(_) => true,
                    _ => false,
                }),
                PrimitiveConvertedType::Date
                | PrimitiveConvertedType::TimeMillis
                | PrimitiveConvertedType::Int8
                | PrimitiveConvertedType::Int16
                | PrimitiveConvertedType::Int32
                | PrimitiveConvertedType::Uint8
                | PrimitiveConvertedType::Uint16
                | PrimitiveConvertedType::Uint32 => physical_type == PhysicalType::Int32,
                PrimitiveConvertedType::TimeMicros
                | PrimitiveConvertedType::TimestampMillis
                | PrimitiveConvertedType::TimestampMicros
                | PrimitiveConvertedType::Int64
                | PrimitiveConvertedType::Uint64 => physical_type == PhysicalType::Int64,
                PrimitiveConvertedType::Interval => physical_type == PhysicalType::FixedLenByteArray(
                    12,
                ),
            },
        };
        if !converted_ok {
            return Err(
                ParquetError::general(
                    String::from_str("Converted type does not fit the physical type"),
                ),
            );
        }
        Ok(
            ParquetType::PrimitiveType {
                field_info: FieldInfo { name, repetition, id },
                converted_type,
                physical_type,
            },
        )
    }
}

} // verus!
