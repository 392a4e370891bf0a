//! The property value domain and its conversion rules.
use vstd::prelude::*;

verus! {

/// The type tag of a property value.
#[derive(Debug, Clone, Copy, PartialEq, Eq, Structural)]
pub enum VariantType {
    Bool,
    Int32,
    Int64,
    String,
    BinaryString,
    SharedString,
    Enum,
    Color3uint8,
    BrickColor,
}

/// A property value.
#[derive(Debug, Clone)]
pub enum Variant {
    Bool(bool),
    Int32(i32),
    Int64(i64),
    String(String),
    BinaryString(Vec<u8>),
    SharedString(Vec<u8>),
    Enum(u32),
    Color3uint8(u8, u8, u8),
    BrickColor(u16),
}

/// The mathematical value of a [`Variant`].
pub enum VariantValue {
    Bool(bool),
    Int32(i32),
    Int64(i64),
    String(Seq<char>),
    BinaryString(Seq<u8>),
    SharedString(Seq<u8>),
    Enum(u32),
    Color3uint8(u8, u8, u8),
    BrickColor(u16),
}

impl View for Variant {
    type V = VariantValue;

    open spec fn view(&self) -> VariantValue {
        match self {
            Variant::Bool(b) => VariantValue::Bool(*b),
            Variant::Int32(n) => VariantValue::Int32(*n),
            Variant::Int64(n) => VariantValue::Int64(*n),
            Variant::String(s) => VariantValue::String(s@),
            Variant::BinaryString(b) => VariantValue::BinaryString(b@),
            Variant::SharedString(b) => VariantValue::SharedString(b@),
            Variant::Enum(n) => VariantValue::Enum(*n),
            Variant::Color3uint8(r, g, b) => VariantValue::Color3uint8(*r, *g, *b),
            Variant::BrickColor(n) => VariantValue::BrickColor(*n),
        }
    }
}

/// The type tag of a value.
pub open spec fn type_of(v: VariantValue) -> VariantType {
    match v {
        VariantValue::Bool(_) => VariantType::Bool,
        VariantValue::Int32(_) => VariantType::Int32,
        VariantValue::Int64(_) => VariantType::Int64,
        VariantValue::String(_) => VariantType::String,
        VariantValue::BinaryString(_) => VariantType::BinaryString,
        VariantValue::SharedString(_) => VariantType::SharedString,
        VariantValue::Enum(_) => VariantType::Enum,
        VariantValue::Color3uint8(_, _, _) => VariantType::Color3uint8,
        VariantValue::BrickColor(_) => VariantType::BrickColor,
    }
}

/// The conversion matrix: the value `v` takes in type `t`, or `None` where
/// no conversion exists.
///
/// A value keeps itself in its own type; 32-bit integers widen to 64 bits;
/// 64-bit integers narrow to 32 bits when they fit; a non-negative integer
/// that fits becomes an enum item; an enum item becomes a 64-bit integer, or
/// a 32-bit one when it fits.
pub open spec fn convert_spec(v: VariantValue, t: VariantType) -> Option<VariantValue> {
    if type_of(v) == t {
        Some(v)
    } else {
        match (v, t) {
            (VariantValue::Int32(n), VariantType::Int64) => Some(VariantValue::Int64(n as i64)),
            (VariantValue::Int64(n), VariantType::Int32) => if i32::MIN <= n <= i32::MAX {
                Some(VariantValue::Int32(n as i32))
            } else {
                None
            },
            (VariantValue::Int32(n), VariantType::Enum) => if 0 <= n {
                Some(VariantValue::Enum(n as u32))
            } else {
                None
            },
            (VariantValue::Int64(n), VariantType::Enum) => if 0 <= n <= u32::MAX {
                Some(VariantValue::Enum(n as u32))
            } else {
                None
            },
            (VariantValue::Enum(n), VariantType::Int32) => if n <= i32::MAX {
                Some(VariantValue::Int32(n as i32))
            } else {
                None
            },
            (VariantValue::Enum(n), VariantType::Int64) => Some(VariantValue::Int64(n as i64)),
            _ => None,
        }
    }
}


impl Variant {
    /// The type tag of this value.
    pub fn ty(&self) -> (r: VariantType)
        ensures
            r == type_of(self@),
    {
        match self {
            Variant::Bool(_) => VariantType::Bool,
            Variant::Int32(_) => VariantType::Int32,
            Variant::Int64(_) => VariantType::Int64,
            Variant::String(_) => VariantType::String,
            Variant::BinaryString(_) => VariantType::BinaryString,
            Variant::SharedString(_) => VariantType::SharedString,
            Variant::Enum(_) => VariantType::Enum,
            Variant::Color3uint8(_, _, _) => VariantType::Color3uint8,
            Variant::BrickColor(_) => VariantType::BrickColor,
        }
    }

    /// A copy of this value.
    pub fn duplicate(&self) -> (r: Variant)
        ensures
            r@ == self@,
    {
        match self {
            Variant::Bool(b) => Variant::Bool(*b),
            Variant::Int32(n) => Variant::Int32(*n),
            Variant::Int64(n) => Variant::Int64(*n),
            Variant::String(s) => Variant::String(s.clone()),
            Variant::BinaryString(b) => Variant::BinaryString(b.clone()),
            Variant::SharedString(b) => Variant::SharedString(b.clone()),
            Variant::Enum(n) => Variant::Enum(*n),
            Variant::Color3uint8(r, g, b) => Variant::Color3uint8(*r, *g, *b),
            Variant::BrickColor(n) => Variant::BrickColor(*n),
        }
    }

    /// Converts this value to type `target`; on failure returns a reason.
    pub fn try_convert(&self, target: VariantType) -> (r: Result<Variant, String>)
        ensures
            convert_spec(self@, target) is None <==> r is Err,
            r matches Ok(v) ==> convert_spec(self@, target) == Some(v@),
    {
        if self.ty() == target {
            return Ok(self.duplicate());
        }
        match (self, target) {
            (Variant::Int32(n), VariantType::Int64) => Ok(Variant::Int64(*n as i64)),
            (Variant::Int64(n), VariantType::Int32) => {
                if i32::MIN as i64 <= *n && *n <= i32::MAX as i64 {
                    Ok(Variant::Int32(*n as i32))
                } else {
                    Err("value is out of range for Int32".to_owned())
                }
            },
            (Variant::Int32(n), VariantType::Enum) => {
                if 0 <= *n {
                    Ok(Variant::Enum(*n as u32))
                } else {
                    Err("negative value cannot be an Enum".to_owned())
                }
            },
            (Variant::Int64(n), VariantType::Enum) => {
                if 0 <= *n && *n <= u32::MAX as i64 {
                    Ok(Variant::Enum(*n as u32))
                } else {
                    Err("value is out of range for Enum".to_owned())
                }
            },
            (Variant::Enum(n), VariantType::Int32) => {
                if *n <= i32::MAX as u32 {
                    Ok(Variant::Int32(*n as i32))
                } else {
                    Err("value is out of range for Int32".to_owned())
                }
            },
            (Variant::Enum(n), VariantType::Int64) => Ok(Variant::Int64(*n as i64)),
            _ => Err("no conversion between these types".to_owned()),
        }
    }
}

} // verus!
