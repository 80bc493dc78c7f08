//! Column types.
use vstd::prelude::*;

verus! {

/// The element type of an array column.
#[derive(Clone, Copy, Debug, PartialEq, Eq, Structural)]
pub enum ArrayElem {
    Bool,
    Int,
    Float,
    Text,
    Date,
    Time,
    Timestamp,
    TimestampTz,
    Uuid,
}

/// The declared type of a stored column.
#[derive(Clone, Copy, Debug, PartialEq, Eq, Structural)]
pub enum ColumnType {
    Bool,
    SmallInt,
    Int,
    BigInt,
    Real,
    Float,
    Text,
    VarChar(u32),
    Char(u32),
    Bytes,
    Date,
    Time,
    TimeTz,
    Timestamp,
    TimestampTz,
    Uuid,
    /// An exact decimal; a `precision` of 0 leaves precision and scale unconstrained.
    Numeric { precision: u8, scale: u8 },
    Json,
    Jsonb,
    Interval,
    Array(ArrayElem),
    /// A vector of exactly this many components.
    Vector(u32),
}

/// The type a declared type is stored as.
pub open spec fn physical_type(ty: ColumnType) -> ColumnType {
    match ty {
        ColumnType::SmallInt | ColumnType::BigInt => ColumnType::Int,
        ColumnType::Real => ColumnType::Float,
        ColumnType::VarChar(_) | ColumnType::Char(_) => ColumnType::Text,
        ColumnType::Jsonb => ColumnType::Json,
        other => other,
    }
}

/// The column type of an array's elements.
pub open spec fn elem_column_type(e: ArrayElem) -> ColumnType {
    match e {
        ArrayElem::Bool => ColumnType::Bool,
        ArrayElem::Int => ColumnType::Int,
        ArrayElem::Float => ColumnType::Float,
        ArrayElem::Text => ColumnType::Text,
        ArrayElem::Date => ColumnType::Date,
        ArrayElem::Time => ColumnType::Time,
        ArrayElem::Timestamp => ColumnType::Timestamp,
        ArrayElem::TimestampTz => ColumnType::TimestampTz,
        ArrayElem::Uuid => ColumnType::Uuid,
    }
}

/// The array element type that a column type can be, if it can.
pub open spec fn elem_of_column_type(ty: ColumnType) -> Option<ArrayElem> {
    match ty {
        ColumnType::Bool => Some(ArrayElem::Bool),
        ColumnType::Int => Some(ArrayElem::Int),
        ColumnType::Float => Some(ArrayElem::Float),
        ColumnType::Text => Some(ArrayElem::Text),
        ColumnType::Date => Some(ArrayElem::Date),
        ColumnType::Time => Some(ArrayElem::Time),
        ColumnType::Timestamp => Some(ArrayElem::Timestamp),
        ColumnType::TimestampTz => Some(ArrayElem::TimestampTz),
        ColumnType::Uuid => Some(ArrayElem::Uuid),
        _ => None,
    }
}

impl ColumnType {
    /// The type this one is stored as.
    pub fn physical(self) -> (r: ColumnType)
        ensures
            r == physical_type(self),
    {
        match self {
            ColumnType::SmallInt | ColumnType::BigInt => ColumnType::Int,
            ColumnType::Real => ColumnType::Float,
            ColumnType::VarChar(_) | ColumnType::Char(_) => ColumnType::Text,
            ColumnType::Jsonb => ColumnType::Json,
            other => other,
        }
    }
}

impl ArrayElem {
    /// The column type of the elements.
    pub fn column_type(self) -> (r: ColumnType)
        ensures
            r == elem_column_type(self),
    {
        match self {
            ArrayElem::Bool => ColumnType::Bool,
            ArrayElem::Int => ColumnType::Int,
            ArrayElem::Float => ColumnType::Float,
            ArrayElem::Text => ColumnType::Text,
            ArrayElem::Date => ColumnType::Date,
            ArrayElem::Time => ColumnType::Time,
            ArrayElem::Timestamp => ColumnType::Timestamp,
            ArrayElem::TimestampTz => ColumnType::TimestampTz,
            ArrayElem::Uuid => ColumnType::Uuid,
        }
    }

    /// The element type that `ty` can be, if it can.
    pub fn from_column_type(ty: ColumnType) -> (r: Option<ArrayElem>)
        ensures
            r == elem_of_column_type(ty),
    {
        match ty {
            ColumnType::Bool => Some(ArrayElem::Bool),
            ColumnType::Int => Some(ArrayElem::Int),
            ColumnType::Float => Some(ArrayElem::Float),
            ColumnType::Text => Some(ArrayElem::Text),
            ColumnType::Date => Some(ArrayElem::Date),
            ColumnType::Time => Some(ArrayElem::Time),
            ColumnType::Timestamp => Some(ArrayElem::Timestamp),
            ColumnType::TimestampTz => Some(ArrayElem::TimestampTz),
            ColumnType::Uuid => Some(ArrayElem::Uuid),
            _ => None,
        }
    }
}

/// The type of a column as the catalog knows it: one that rows are made of here, or another.
#[derive(Debug, PartialEq, Eq)]
pub enum CatalogType {
    Column(ColumnType),
    Macaddr,
    Macaddr8,
    Inet,
    Cidr,
    Bit(u32),
    VarBit(u32),
    /// A range, by the name of its type.
    Range(String),
    /// A geometry, by the name of its type.
    Geometry(String),
    Tsvector,
    Tsquery,
    Xml,
    Enum,
}

/// Equal values of the type have the same index key, so that a key can stand for its value.
pub open spec fn hash_safe_type(ty: CatalogType) -> bool {
    match ty {
        CatalogType::Column(c) => match c {
            ColumnType::Bool
            | ColumnType::Int
            | ColumnType::SmallInt
            | ColumnType::BigInt
            | ColumnType::Text
            | ColumnType::VarChar(_)
            | ColumnType::Char(_)
            | ColumnType::Date
            | ColumnType::Time
            | ColumnType::Timestamp
            | ColumnType::TimestampTz
            | ColumnType::Uuid => true,
            _ => false,
        },
        CatalogType::Macaddr
        | CatalogType::Macaddr8
        | CatalogType::Inet
        | CatalogType::Cidr
        | CatalogType::Bit(_)
        | CatalogType::VarBit(_) => true,
        _ => false,
    }
}

/// Whether equal values of the type have the same index key, so that a key can stand for its value.
pub fn is_hash_safe_key_type(ty: &CatalogType) -> (r: bool)
    ensures
        r == hash_safe_type(*ty),
{
    match ty {
        CatalogType::Column(c) => match c {
            ColumnType::Bool
            | ColumnType::Int
            | ColumnType::SmallInt
            | ColumnType::BigInt
            | ColumnType::Text
            | ColumnType::VarChar(_)
            | ColumnType::Char(_)
            | ColumnType::Date
            | ColumnType::Time
            | ColumnType::Timestamp
            | ColumnType::TimestampTz
            | ColumnType::Uuid => true,
            _ => false,
        },
        CatalogType::Macaddr
        | CatalogType::Macaddr8
        | CatalogType::Inet
        | CatalogType::Cidr
        | CatalogType::Bit(_)
        | CatalogType::VarBit(_) => true,
        _ => false,
    }
}

} // verus!
