//! The reflection schema: how each stored property of a class is serialized.
use vstd::prelude::*;
use crate::variant::{Variant, VariantType, VariantValue};

verus! {

/// Whether `n` is the number of a color of the platform's BrickColor palette.
pub uninterp spec fn is_brick_color(n: u16) -> bool;

/// The red, green and blue components of the palette color numbered `n`.
pub uninterp spec fn brick_color_rgb(n: u16) -> (u8, u8, u8);

/// Relies on `rbx_types::BrickColor::from_number`, `Some` exactly for the
/// numbers of the palette, and on `BrickColor::to_color3uint8`, which reads
/// the palette's color for that number from a fixed table.
#[verifier::external_body]
fn brick_color_components(n: u16) -> (r: Option<(u8, u8, u8)>)
    ensures
        r is Some <==> is_brick_color(n),
        r matches Some(c) ==> c == brick_color_rgb(n),
{
    match rbx_dom_weak::types::BrickColor::from_number(n) {
        Some(color) => {
            let c = color.to_color3uint8();
            Some((c.r, c.g, c.b))
        },
        None => None,
    }
}

/// A legacy-to-canonical value transform of the schema.
#[derive(Debug, Clone, Copy, PartialEq, Eq, Structural)]
pub enum MigrationOperation {
    /// A boolean inset flag becomes the ScreenInsets enum: `true` is item 1,
    /// `false` item 2.
    IgnoreGuiInsetToScreenInsets,
    /// A BrickColor becomes its palette color.
    BrickColorToColor,
}

/// A migration: the canonical property's name and the transform.
#[derive(Debug, Clone)]
pub struct PropertyMigration {
    pub new_property_name: String,
    pub operation: MigrationOperation,
}

/// What a migration makes of `v`, or `None` where it does not apply.
pub open spec fn migrate_spec(op: MigrationOperation, v: VariantValue) -> Option<VariantValue> {
    match (op, v) {
        (MigrationOperation::IgnoreGuiInsetToScreenInsets, VariantValue::Bool(b)) => Some(
            VariantValue::Enum(if b { 1u32 } else { 2u32 }),
        ),
        (MigrationOperation::BrickColorToColor, VariantValue::BrickColor(n)) => if is_brick_color(
            n,
        ) {
            let (r, g, b) = brick_color_rgb(n);
            Some(VariantValue::Color3uint8(r, g, b))
        } else {
            None
        },
        _ => None,
    }
}

impl PropertyMigration {
    /// Applies the transform to `input`.
    pub fn perform(&self, input: &Variant) -> (r: Option<Variant>)
        ensures
            r is None <==> migrate_spec(self.operation, input@) is None,
            r matches Some(v) ==> migrate_spec(self.operation, input@) == Some(v@),
    {
        match (self.operation, input) {
            (MigrationOperation::IgnoreGuiInsetToScreenInsets, Variant::Bool(b)) => {
                Some(Variant::Enum(if *b { 1u32 } else { 2u32 }))
            },
            (MigrationOperation::BrickColorToColor, Variant::BrickColor(n)) => {
                match brick_color_components(*n) {
                    Some((r, g, b)) => Some(Variant::Color3uint8(r, g, b)),
                    None => None,
                }
            },
            _ => None,
        }
    }
}

/// The declared type of a serialized property.
#[derive(Debug, Clone)]
pub enum DataType {
    Value(VariantType),
    /// An enum of the given name, serialized as an integer item.
    Enum(String),
}

/// The type a value of declared type `d` is written as.
pub open spec fn serialized_type(d: DataType) -> VariantType {
    match d {
        DataType::Value(t) => t,
        DataType::Enum(_) => VariantType::Enum,
    }
}

/// How one stored property of one class is serialized.
#[derive(Debug, Clone)]
pub struct PropertyDescriptor {
    /// The class that holds the property.
    pub class_name: String,
    /// The name under which the property is stored in the tree.
    pub property_name: String,
    /// The canonical name written to the document.
    pub serialized_name: String,
    pub data_type: DataType,
    pub migration: Option<PropertyMigration>,
}

/// A read-only table of property descriptors.
#[derive(Debug, Clone)]
pub struct ReflectionDatabase {
    pub descriptors: Vec<PropertyDescriptor>,
}

/// Whether descriptor `d` describes property `property` of class `class`.
pub open spec fn describes(d: PropertyDescriptor, class: Seq<char>, property: Seq<char>) -> bool {
    d.class_name@ == class && d.property_name@ == property
}

/// The index of the first descriptor at or after `i` that describes the
/// pair, if any.
pub open spec fn find_from(
    ds: Seq<PropertyDescriptor>,
    class: Seq<char>,
    property: Seq<char>,
    i: int,
) -> Option<int>
    decreases ds.len() - i,
{
    if i < 0 || i >= ds.len() {
        None
    } else if describes(ds[i], class, property) {
        Some(i)
    } else {
        find_from(ds, class, property, i + 1)
    }
}

impl ReflectionDatabase {
    /// An empty schema: no property resolves.
    pub fn new() -> (r: ReflectionDatabase)
        ensures
            r.descriptors@.len() == 0,
    {
        ReflectionDatabase { descriptors: Vec::new() }
    }

    /// The index of the descriptor the pair resolves to.
    pub open spec fn lookup(&self, class: Seq<char>, property: Seq<char>) -> Option<int> {
        find_from(self.descriptors@, class, property, 0)
    }
}

/// Finds the serialized descriptor of property `property_name` of class
/// `class_name`: the first one of the table that describes that pair.
pub fn find_serialized_property_descriptor(
    class_name: &String,
    property_name: &String,
    database: &ReflectionDatabase,
) -> (r: Option<usize>)
    ensures
        r matches Some(i) ==> database.lookup(class_name@, property_name@) == Some(i as int) && i
            < database.descriptors@.len(),
        r is None ==> database.lookup(class_name@, property_name@) is None,
{
    let n = database.descriptors.len();
    let mut i: usize = 0;
    while i < n
        invariant
            n == database.descriptors@.len(),
            0 <= i <= n,
            find_from(database.descriptors@, class_name@, property_name@, 0) == find_from(
                database.descriptors@,
                class_name@,
                property_name@,
                i as int,
            ),
        decreases n - i,
    {
        let d = &database.descriptors[i];
        if d.class_name == *class_name && d.property_name == *property_name {
            return Some(i);
        }
        i = i + 1;
    }
    None
}

} // verus!
