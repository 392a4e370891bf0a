//! Encoding of an instance tree into the event stream of a model document.
use std::collections::HashMap;
use vstd::prelude::*;
use crate::dom::WeakDom;
use crate::order::{is_sorted_order, sorted_property_order};
use crate::reflection::{
    find_serialized_property_descriptor, migrate_spec, serialized_type, DataType,
    ReflectionDatabase,
};
use crate::shared_strings::{
    base64_encode, base64_of, content_hash, registry_wf, shared_string_hash, SharedStrings,
    MAX_SHARED_STRING_LEN,
};
use crate::variant::{convert_spec, type_of, Variant, VariantType, VariantValue};

verus! {

broadcast use vstd::std_specs::hash::group_hash_axioms;

/// The document format version written on the root element.
pub const FORMAT_VERSION: u32 = 4;

/// How properties that the schema does not know are handled.
#[derive(Debug, Clone, Copy, PartialEq, Eq, Hash, Structural)]
#[non_exhaustive]
pub enum EncodePropertyBehavior {
    /// Leaves unknown properties out.
    IgnoreUnknown,
    /// Writes unknown properties as they are stored.
    WriteUnknown,
    /// Fails on the first unknown property.
    ErrorOnUnknown,
    /// Consults no schema; every property is written as it is stored.
    NoReflection,
}

/// Options for encoding a model or place.
#[derive(Debug, Clone)]
pub struct EncodeOptions {
    pub property_behavior: EncodePropertyBehavior,
    pub database: ReflectionDatabase,
}

impl EncodeOptions {
    /// Options that ignore unknown properties, over an empty schema.
    pub fn new() -> (r: EncodeOptions)
        ensures
            r.property_behavior == EncodePropertyBehavior::IgnoreUnknown,
            r.database.descriptors@.len() == 0,
    {
        EncodeOptions {
            property_behavior: EncodePropertyBehavior::IgnoreUnknown,
            database: ReflectionDatabase::new(),
        }
    }

    /// These options with the given property behavior.
    pub fn property_behavior(self, property_behavior: EncodePropertyBehavior) -> (r: EncodeOptions)
        ensures
            r.property_behavior == property_behavior,
            r.database == self.database,
    {
        EncodeOptions { property_behavior, ..self }
    }

    /// These options with the given schema.
    pub fn reflection_database(self, database: ReflectionDatabase) -> (r: EncodeOptions)
        ensures
            r.property_behavior == self.property_behavior,
            r.database == database,
    {
        EncodeOptions { database, ..self }
    }

    /// Whether properties are resolved through the schema.
    pub fn use_reflection(&self) -> (r: bool)
        ensures
            r == (self.property_behavior != EncodePropertyBehavior::NoReflection),
    {
        self.property_behavior != EncodePropertyBehavior::NoReflection
    }
}

impl Default for EncodeOptions {
    fn default() -> (r: EncodeOptions)
        ensures
            r.property_behavior == EncodePropertyBehavior::IgnoreUnknown,
            r.database.descriptors@.len() == 0,
    {
        EncodeOptions::new()
    }
}

/// Why an encoding failed.
#[derive(Debug)]
pub enum EncodeError {
    /// A stored value could not be converted to the schema's declared type.
    UnsupportedPropertyConversion {
        class_name: String,
        property_name: String,
        expected_type: VariantType,
        actual_type: VariantType,
        message: String,
    },
    /// The schema does not know a property and the options ask to fail.
    UnknownProperty { class_name: String, property_name: String },
}

/// One step of the document, as handed to a markup writer.
#[derive(Debug)]
pub enum XmlEvent {
    /// Opens the root element, with the format version.
    StartDocument { version: u32 },
    /// Opens an instance element.
    StartItem { class: String, referent: u32 },
    /// Opens the properties block of an instance.
    StartProperties,
    /// A property with its value.
    Property { name: String, value: Variant },
    /// A property that refers to a shared payload by its fingerprint.
    SharedStringProperty { name: String, md5: String },
    /// Closes the properties block.
    EndProperties,
    /// Closes an instance element.
    EndItem,
    /// Opens the block of shared payloads.
    StartSharedStrings,
    /// One shared payload: its fingerprint and its base64 text.
    SharedString { md5: String, data: String },
    /// Closes the block of shared payloads.
    EndSharedStrings,
    /// Closes the root element.
    EndDocument,
}

/// What becomes of one stored property.
pub enum PropertyOutcome {
    /// It is left out.
    Omitted,
    /// It is written under this name with this value.
    Written(Seq<char>, VariantValue),
    /// Its value does not convert from the second type to the first.
    Unconvertible(VariantType, VariantType),
    /// The schema does not know it and the options ask to fail.
    Unknown,
}

/// The fate of property `name` of a `class` instance holding value `v`.
pub open spec fn property_outcome(
    options: EncodeOptions,
    class: Seq<char>,
    name: Seq<char>,
    v: VariantValue,
) -> PropertyOutcome {
    let found = if options.property_behavior != EncodePropertyBehavior::NoReflection {
        options.database.lookup(class, name)
    } else {
        None
    };
    match found {
        Some(i) => {
            let d = options.database.descriptors@[i];
            let t = serialized_type(d.data_type);
            match convert_spec(v, t) {
                None => PropertyOutcome::Unconvertible(t, type_of(v)),
                Some(c) => match d.migration {
                    Some(m) => match migrate_spec(m.operation, c) {
                        Some(mv) => PropertyOutcome::Written(m.new_property_name@, mv),
                        None => PropertyOutcome::Written(d.serialized_name@, c),
                    },
                    None => PropertyOutcome::Written(d.serialized_name@, c),
                },
            }
        },
        None => match options.property_behavior {
            EncodePropertyBehavior::IgnoreUnknown => PropertyOutcome::Omitted,
            EncodePropertyBehavior::ErrorOnUnknown => PropertyOutcome::Unknown,
            _ => PropertyOutcome::Written(name, v),
        },
    }
}

/// Whether `r` is the result that outcome `o` calls for, for property
/// `name` of class `class`.
pub open spec fn outcome_result(
    o: PropertyOutcome,
    class: Seq<char>,
    name: Seq<char>,
    r: Result<Option<(String, Variant)>, EncodeError>,
) -> bool {
    match o {
        PropertyOutcome::Omitted => r matches Ok(None),
        PropertyOutcome::Written(n, v) => r matches Ok(Some(p)) && p.0@ == n && p.1@ == v,
        PropertyOutcome::Unconvertible(e, a) => r matches Err(
            EncodeError::UnsupportedPropertyConversion {
                class_name,
                property_name,
                expected_type,
                actual_type,
                ..
            },
        ) && class_name@ == class && property_name@ == name && expected_type == e && actual_type
            == a,
        PropertyOutcome::Unknown => r matches Err(
            EncodeError::UnknownProperty { class_name, property_name },
        ) && class_name@ == class && property_name@ == name,
    }
}

/// Resolves one stored property through the schema and the options: the
/// name and value to write, nothing, or the error that ends the encoding.
pub fn encode_property(
    options: &EncodeOptions,
    class_name: &String,
    property_name: &String,
    value: &Variant,
) -> (r: Result<Option<(String, Variant)>, EncodeError>)
    ensures
        outcome_result(
            property_outcome(*options, class_name@, property_name@, value@),
            class_name@,
            property_name@,
            r,
        ),
{
    let found = if options.use_reflection() {
        find_serialized_property_descriptor(class_name, property_name, &options.database)
    } else {
        None
    };
    match found {
        Some(i) => {
            let descriptor = &options.database.descriptors[i];
            let data_type = match &descriptor.data_type {
                DataType::Value(t) => *t,
                DataType::Enum(_) => VariantType::Enum,
            };
            let converted = match value.try_convert(data_type) {
                Ok(v) => v,
                Err(message) => {
                    return Err(
                        EncodeError::UnsupportedPropertyConversion {
                            class_name: class_name.clone(),
                            property_name: property_name.clone(),
                            expected_type: data_type,
                            actual_type: value.ty(),
                            message,
                        },
                    );
                },
            };
            match &descriptor.migration {
                Some(migration) => match migration.perform(&converted) {
                    Some(migrated) => Ok(Some((migration.new_property_name.clone(), migrated))),
                    None => Ok(Some((descriptor.serialized_name.clone(), converted))),
                },
                None => Ok(Some((descriptor.serialized_name.clone(), converted))),
            }
        },
        None => match options.property_behavior {
            EncodePropertyBehavior::IgnoreUnknown => Ok(None),
            EncodePropertyBehavior::ErrorOnUnknown => Err(
                EncodeError::UnknownProperty {
                    class_name: class_name.clone(),
                    property_name: property_name.clone(),
                },
            ),
            _ => Ok(Some((property_name.clone(), value.duplicate()))),
        },
    }
}

} // verus!

verus! {

/// A finite set of handles below `n` has at most `n` members.
pub proof fn lemma_handle_set_len(s: Set<usize>, n: usize)
    requires
        s.finite(),
        forall|k: usize| s.contains(k) ==> k < n,
    ensures
        s.len() <= n,
    decreases n,
{
    broadcast use vstd::set::group_set_axioms;

    if n == 0 {
        assert(s =~= Set::empty());
    } else {
        let t = s.remove((n - 1) as usize);
        lemma_handle_set_len(t, (n - 1) as usize);
        if s.contains((n - 1) as usize) {
            assert(t.len() == s.len() - 1);
        } else {
            assert(t =~= s);
        }
    }
}

/// The state of one encoding: the options, the referents handed out so
/// far, and the shared payloads to write at the end.
pub struct EmitState {
    pub options: EncodeOptions,
    /// Maps instance handles to their referents.
    pub referent_map: HashMap<usize, u32>,
    /// The next referent to hand out.
    pub next_referent: u32,
    /// Shared payloads to write after the instances.
    pub shared_strings_to_emit: SharedStrings,
}

/// Referents are handed out as `0, 1, 2, ...` to distinct handles.
pub open spec fn referents_wf(m: Map<usize, u32>, next: u32) -> bool {
    &&& m.dom().finite()
    &&& m.dom().len() == next
    &&& forall|k: usize| #[trigger] m.contains_key(k) ==> m[k] < next
    &&& forall|a: usize, b: usize|
        #[trigger] m.contains_key(a) && #[trigger] m.contains_key(b) && a != b ==> m[a] != m[b]
}

/// Where all handed-out handles are below `n <= u32::MAX`, a handle below
/// `n` without a referent leaves room for one more.
pub proof fn lemma_room_for_referent(m: Map<usize, u32>, next: u32, n: usize, id: usize)
    requires
        referents_wf(m, next),
        forall|k: usize| #[trigger] m.contains_key(k) ==> k < n,
        id < n,
        n <= u32::MAX,
        !m.contains_key(id),
    ensures
        next < u32::MAX,
{
    lemma_handle_set_len(m.dom().insert(id), n);
}

impl EmitState {
    /// The state is consistent for a tree of `n` nodes.
    pub open spec fn wf(&self, n: nat) -> bool {
        &&& self.shared_strings_to_emit.wf()
        &&& referents_wf(self.referent_map@, self.next_referent)
        &&& forall|k: usize| #[trigger] self.referent_map@.contains_key(k) ==> k < n
    }

    /// A fresh state: no referent handed out, no payload registered.
    pub fn new(options: EncodeOptions) -> (r: EmitState)
        ensures
            r.options == options,
            r.referent_map@ == Map::<usize, u32>::empty(),
            r.next_referent == 0,
            r.shared_strings_to_emit@.len() == 0,
            forall|n: nat| r.wf(n),
    {
        EmitState {
            options,
            referent_map: HashMap::new(),
            next_referent: 0,
            shared_strings_to_emit: SharedStrings::new(),
        }
    }

    /// The referent of `id`: the one it was given before, or else the next
    /// unused one.
    pub fn map_id(&mut self, id: usize) -> (r: u32)
        requires
            referents_wf(old(self).referent_map@, old(self).next_referent),
            old(self).referent_map@.contains_key(id) || old(self).next_referent < u32::MAX,
        ensures
            referents_wf(final(self).referent_map@, final(self).next_referent),
            final(self).options == old(self).options,
            final(self).shared_strings_to_emit == old(self).shared_strings_to_emit,
            old(self).referent_map@.contains_key(id) ==> r == old(self).referent_map@[id]
                && final(self).referent_map@ == old(self).referent_map@
                && final(self).next_referent == old(self).next_referent,
            !old(self).referent_map@.contains_key(id) ==> r == old(self).next_referent
                && final(self).referent_map@ == old(self).referent_map@.insert(id, r)
                && final(self).next_referent == old(self).next_referent + 1,
    {
        match self.referent_map.get(&id) {
            Some(value) => *value,
            None => {
                let referent = self.next_referent;
                self.referent_map.insert(id, referent);
                self.next_referent = self.next_referent + 1;
                proof {
                    assert(self.referent_map@.dom() =~= old(self).referent_map@.dom().insert(id));
                }
                referent
            },
        }
    }
}

} // verus!

verus! {

/// Whether event `e` writes property `name` with value `v`: a shared
/// payload is written as a reference to its fingerprint, the first 16
/// bytes of its content hash in base64.
pub open spec fn is_property_event(e: XmlEvent, name: Seq<char>, v: VariantValue) -> bool {
    match v {
        VariantValue::SharedString(d) => e matches XmlEvent::SharedStringProperty { name: n, md5 }
            && n@ == name && md5@ == base64_of(shared_string_hash(d).subrange(0, 16)),
        _ => e matches XmlEvent::Property { name: n, value } && n@ == name && value@ == v,
    }
}

/// Only a stored shared payload is written as one.
pub proof fn lemma_written_shared_string(
    options: EncodeOptions,
    class: Seq<char>,
    name: Seq<char>,
    v: VariantValue,
    n: Seq<char>,
    d: Seq<u8>,
)
    requires
        property_outcome(options, class, name, v) == PropertyOutcome::Written(
            n,
            VariantValue::SharedString(d),
        ),
    ensures
        v == VariantValue::SharedString(d),
{
}

/// The fingerprint of a content hash: its first 16 bytes in base64.
fn fingerprint(hash: &Vec<u8>) -> (r: String)
    requires
        hash@.len() >= 16,
    ensures
        r@ == base64_of(hash@.subrange(0, 16)),
{
    let mut truncated: Vec<u8> = Vec::new();
    let mut i: usize = 0;
    while i < 16
        invariant
            i <= 16,
            hash@.len() >= 16,
            truncated@ == hash@.subrange(0, i as int),
        decreases 16 - i,
    {
        truncated.push(hash[i]);
        i = i + 1;
        proof {
            assert(truncated@ =~= hash@.subrange(0, i as int));
        }
    }
    base64_encode(truncated.as_slice())
}

impl EmitState {
    /// Registers a shared payload to be written at the end of the document.
    pub fn add_shared_string(&mut self, value: Vec<u8>)
        requires
            old(self).shared_strings_to_emit.wf(),
            value@.len() <= MAX_SHARED_STRING_LEN,
        ensures
            final(self).shared_strings_to_emit.wf(),
            final(self).options == old(self).options,
            final(self).referent_map@ == old(self).referent_map@,
            final(self).next_referent == old(self).next_referent,
            exists|i: int|
                0 <= i < final(self).shared_strings_to_emit@.len()
                    && #[trigger] final(self).shared_strings_to_emit@[i].0 == shared_string_hash(
                    value@,
                ),
            forall|i: int|
                0 <= i < old(self).shared_strings_to_emit@.len()
                    ==> final(self).shared_strings_to_emit@.contains(
                    #[trigger] old(self).shared_strings_to_emit@[i],
                ),
            forall|i: int|
                0 <= i < final(self).shared_strings_to_emit@.len()
                    ==> old(self).shared_strings_to_emit@.contains(
                    #[trigger] final(self).shared_strings_to_emit@[i],
                ) || final(self).shared_strings_to_emit@[i] == (shared_string_hash(value@), value@),
    {
        let ghost v = value@;
        self.shared_strings_to_emit.insert(value);
        proof {
            let i = choose|i: int|
                0 <= i < self.shared_strings_to_emit@.len()
                    && #[trigger] self.shared_strings_to_emit@[i].0 == shared_string_hash(v);
            assert(self.shared_strings_to_emit@[i].0 == shared_string_hash(v));
        }
    }
}

/// Whether event `e`, where it refers to a shared payload, refers to the
/// fingerprint of an entry of the registry `es`.
pub open spec fn covered_event(e: XmlEvent, es: Seq<(Seq<u8>, Seq<u8>)>) -> bool {
    e matches XmlEvent::SharedStringProperty { md5, .. } ==> exists|i: int|
        0 <= i < es.len() && md5@ == base64_of(#[trigger] es[i].0.subrange(0, 16))
}

/// Whether every reference to a shared payload in `ev` has its entry in `es`.
pub open spec fn refs_covered(ev: Seq<XmlEvent>, es: Seq<(Seq<u8>, Seq<u8>)>) -> bool {
    forall|p: int| 0 <= p < ev.len() ==> covered_event(#[trigger] ev[p], es)
}

/// Whether registry `b` still holds every entry of registry `a`.
pub open spec fn registry_grows(a: Seq<(Seq<u8>, Seq<u8>)>, b: Seq<(Seq<u8>, Seq<u8>)>) -> bool {
    forall|i: int| 0 <= i < a.len() ==> b.contains(#[trigger] a[i])
}

/// References covered by a registry stay covered as it grows.
pub proof fn lemma_covered_grow(
    ev: Seq<XmlEvent>,
    a: Seq<(Seq<u8>, Seq<u8>)>,
    b: Seq<(Seq<u8>, Seq<u8>)>,
)
    requires
        refs_covered(ev, a),
        registry_grows(a, b),
    ensures
        refs_covered(ev, b),
{
    assert forall|p: int| 0 <= p < ev.len() implies covered_event(#[trigger] ev[p], b) by {
        if let XmlEvent::SharedStringProperty { md5, .. } = ev[p] {
            let i = choose|i: int| 0 <= i < a.len() && md5@ == base64_of(#[trigger] a[i].0.subrange(0, 16));
            assert(b.contains(a[i]));
            let k = choose|k: int| 0 <= k < b.len() && b[k] == a[i];
            assert(md5@ == base64_of(b[k].0.subrange(0, 16)));
        }
    }
}

/// Whether some event of `ev` refers to the fingerprint of registry entry
/// `entry`.
pub open spec fn referenced(ev: Seq<XmlEvent>, entry: (Seq<u8>, Seq<u8>)) -> bool {
    exists|p: int|
        0 <= p < ev.len() && (#[trigger] ev[p] matches XmlEvent::SharedStringProperty { md5, .. }
            && md5@ == base64_of(entry.0.subrange(0, 16)))
}

/// Whether every entry of registry `b` was in registry `a` or is referred
/// to from `ev`.
pub open spec fn new_entries_referenced(
    a: Seq<(Seq<u8>, Seq<u8>)>,
    b: Seq<(Seq<u8>, Seq<u8>)>,
    ev: Seq<XmlEvent>,
) -> bool {
    forall|i: int| 0 <= i < b.len() ==> a.contains(#[trigger] b[i]) || referenced(ev, b[i])
}

/// A reference in `x` stays one in `x + y` and in `y + x`.
pub proof fn lemma_referenced_concat(x: Seq<XmlEvent>, y: Seq<XmlEvent>, entry: (Seq<u8>, Seq<u8>))
    requires
        referenced(x, entry),
    ensures
        referenced(x + y, entry),
        referenced(y + x, entry),
{
    let p = choose|p: int|
        0 <= p < x.len() && (#[trigger] x[p] matches XmlEvent::SharedStringProperty { md5, .. }
            && md5@ == base64_of(entry.0.subrange(0, 16)));
    assert((x + y)[p] == x[p]);
    assert((y + x)[y.len() + p] == x[p]);
}

/// New entries stay referenced across two steps of an encoding.
pub proof fn lemma_new_entries_step(
    a: Seq<(Seq<u8>, Seq<u8>)>,
    b: Seq<(Seq<u8>, Seq<u8>)>,
    c: Seq<(Seq<u8>, Seq<u8>)>,
    x: Seq<XmlEvent>,
    y: Seq<XmlEvent>,
)
    requires
        new_entries_referenced(a, b, x),
        new_entries_referenced(b, c, y),
    ensures
        new_entries_referenced(a, c, x + y),
{
    assert forall|i: int| 0 <= i < c.len() implies a.contains(#[trigger] c[i]) || referenced(x + y, c[i]) by {
        if b.contains(c[i]) {
            let k = choose|k: int| 0 <= k < b.len() && b[k] == c[i];
            if !a.contains(b[k]) {
                lemma_referenced_concat(x, y, b[k]);
            }
        } else {
            lemma_referenced_concat(y, x, c[i]);
        }
    }
}

/// A registry that does not change has no new entries.
pub proof fn lemma_no_new_entries(b: Seq<(Seq<u8>, Seq<u8>)>, y: Seq<XmlEvent>)
    ensures
        new_entries_referenced(b, b, y),
{
    assert forall|i: int| 0 <= i < b.len() implies b.contains(#[trigger] b[i]) || referenced(y, b[i]) by {}
}

/// Appending a covered event keeps the references covered.
pub proof fn lemma_covered_push(ev: Seq<XmlEvent>, e: XmlEvent, es: Seq<(Seq<u8>, Seq<u8>)>)
    requires
        refs_covered(ev, es),
        covered_event(e, es),
    ensures
        refs_covered(ev.push(e), es),
{
    assert forall|p: int| 0 <= p < ev.push(e).len() implies covered_event(#[trigger] ev.push(e)[p], es) by {
        if p < ev.len() {
            assert(ev.push(e)[p] == ev[p]);
        }
    }
}

/// Two runs of covered references make a covered run.
pub proof fn lemma_covered_concat(x: Seq<XmlEvent>, y: Seq<XmlEvent>, es: Seq<(Seq<u8>, Seq<u8>)>)
    requires
        refs_covered(x, es),
        refs_covered(y, es),
    ensures
        refs_covered(x + y, es),
{
    assert forall|p: int| 0 <= p < (x + y).len() implies covered_event(#[trigger] (x + y)[p], es) by {
        if p < x.len() {
            assert((x + y)[p] == x[p]);
        } else {
            assert((x + y)[p] == y[p - x.len()]);
        }
    }
}

/// Registry growth is transitive.
pub proof fn lemma_registry_grows_transitive(
    a: Seq<(Seq<u8>, Seq<u8>)>,
    b: Seq<(Seq<u8>, Seq<u8>)>,
    c: Seq<(Seq<u8>, Seq<u8>)>,
)
    requires
        registry_grows(a, b),
        registry_grows(b, c),
    ensures
        registry_grows(a, c),
{
    assert forall|i: int| 0 <= i < a.len() implies c.contains(#[trigger] a[i]) by {
        assert(b.contains(a[i]));
        let k = choose|k: int| 0 <= k < b.len() && b[k] == a[i];
        assert(c.contains(b[k]));
    }
}

/// Writes one property; a shared payload is registered and referred to by
/// its fingerprint.
fn emit_property(out: &mut Vec<XmlEvent>, state: &mut EmitState, name: String, value: Variant)
    requires
        old(state).shared_strings_to_emit.wf(),
        value matches Variant::SharedString(d) ==> d@.len() <= MAX_SHARED_STRING_LEN,
    ensures
        final(state).shared_strings_to_emit.wf(),
        final(state).options == old(state).options,
        final(state).referent_map@ == old(state).referent_map@,
        final(state).next_referent == old(state).next_referent,
        final(out)@ == old(out)@.push(final(out)@.last()),
        is_property_event(final(out)@.last(), name@, value@),
        registry_grows(old(state).shared_strings_to_emit@, final(state).shared_strings_to_emit@),
        covered_event(final(out)@.last(), final(state).shared_strings_to_emit@),
        new_entries_referenced(
            old(state).shared_strings_to_emit@,
            final(state).shared_strings_to_emit@,
            seq![final(out)@.last()],
        ),
        !(value is SharedString) ==> final(state).shared_strings_to_emit@
            == old(state).shared_strings_to_emit@,
{
    match value {
        Variant::SharedString(data) => {
            let hash = content_hash(&data);
            let md5 = fingerprint(&hash);
            let ghost d = data@;
            state.add_shared_string(data);
            out.push(XmlEvent::SharedStringProperty { name, md5 });
            proof {
                let es = state.shared_strings_to_emit@;
                let i = choose|i: int| 0 <= i < es.len() && #[trigger] es[i].0 == shared_string_hash(d);
                assert(es[i].0 == hash@);
                let last = seq![out@.last()];
                assert(last[0] == out@.last());
                assert forall|k: int| 0 <= k < es.len() implies old(state).shared_strings_to_emit@.contains(#[trigger] es[k])
                    || referenced(last, es[k]) by {
                    if !old(state).shared_strings_to_emit@.contains(es[k]) {
                        assert(es[k] == (shared_string_hash(d), d));
                    }
                }
            }
        },
        other => {
            out.push(XmlEvent::Property { name, value: other });
        },
    }
}

} // verus!

verus! {

/// Whether `events` are the properties written for the stored properties
/// `props` of a `class` instance, taken in `order`: one event for each
/// property that is written, none for one that is left out.
pub open spec fn properties_block(
    events: Seq<XmlEvent>,
    props: Seq<(String, Variant)>,
    order: Seq<usize>,
    options: EncodeOptions,
    class: Seq<char>,
) -> bool
    decreases order.len(),
{
    if order.len() == 0 {
        events.len() == 0
    } else {
        let p = props[order.last() as int];
        match property_outcome(options, class, p.0@, p.1@) {
            PropertyOutcome::Written(n, v) => events.len() > 0 && is_property_event(
                events.last(),
                n,
                v,
            ) && properties_block(events.drop_last(), props, order.drop_last(), options, class),
            _ => properties_block(events, props, order.drop_last(), options, class),
        }
    }
}

/// Whether `ev` is the instance element of node `id` of `tree`: it opens
/// the element with the node's class, opens the properties block, writes
/// the synthetic `Name` property first, then the stored properties in
/// ascending order of name as `options` resolve them, closes the block,
/// holds the elements of the children one after the other in stored
/// order, and closes the element. Each element carries the referent that
/// `referents` gives its node.
pub open spec fn instance_events(
    ev: Seq<XmlEvent>,
    tree: WeakDom,
    options: EncodeOptions,
    referents: Map<usize, u32>,
    id: int,
) -> bool
    decreases tree.instances@.len() - id,
{
    if 0 <= id < tree.instances@.len() {
        let inst = tree.instances@[id];
        let kids = inst.children@;
        &&& ev.len() >= 5
        &&& ev[0] matches XmlEvent::StartItem { class, referent } && class@ == inst.class@
            && referents.contains_key(id as usize) && referent == referents[id as usize]
        &&& ev[1] matches XmlEvent::StartProperties
        &&& is_property_event(ev[2], seq!['N', 'a', 'm', 'e'], VariantValue::String(inst.name@))
        &&& exists|order: Seq<usize>, m: int, bounds: Seq<int>|
            #![trigger properties_block(ev.subrange(3, 3 + m), inst.properties@, order, options, inst.class@), bounds.len()]
            0 <= m && 4 + m <= ev.len() - 1 && is_sorted_order(inst.properties@, order)
                && properties_block(
                ev.subrange(3, 3 + m),
                inst.properties@,
                order,
                options,
                inst.class@,
            ) && (ev[3 + m] matches XmlEvent::EndProperties) && bounds.len() == kids.len() + 1
                && bounds[0] == 4 + m && bounds.last() == ev.len() - 1 && (forall|j: int|
                0 <= j < kids.len() ==> #[trigger] bounds[j] <= bounds[j + 1]) && (forall|j: int|
                0 <= j < kids.len() && id < #[trigger] kids[j] < tree.instances@.len()
                    ==> instance_events(
                    ev.subrange(bounds[j], bounds[j + 1]),
                    tree,
                    options,
                    referents,
                    kids[j] as int,
                ))
        &&& ev.last() matches XmlEvent::EndItem
    } else {
        false
    }
}

/// An instance element stays one when more referents are handed out.
pub proof fn lemma_instance_events_grow(
    ev: Seq<XmlEvent>,
    tree: WeakDom,
    options: EncodeOptions,
    m1: Map<usize, u32>,
    m2: Map<usize, u32>,
    id: int,
)
    requires
        instance_events(ev, tree, options, m1, id),
        m1.submap_of(m2),
    ensures
        instance_events(ev, tree, options, m2, id),
    decreases tree.instances@.len() - id,
{
    let inst = tree.instances@[id];
    let kids = inst.children@;
    let (order, m, bounds) = choose|order: Seq<usize>, m: int, bounds: Seq<int>|
        #![trigger properties_block(ev.subrange(3, 3 + m), inst.properties@, order, options, inst.class@), bounds.len()]
        0 <= m && 4 + m <= ev.len() - 1 && is_sorted_order(inst.properties@, order)
            && properties_block(
            ev.subrange(3, 3 + m),
            inst.properties@,
            order,
            options,
            inst.class@,
        ) && (ev[3 + m] matches XmlEvent::EndProperties) && bounds.len() == kids.len() + 1
            && bounds[0] == 4 + m && bounds.last() == ev.len() - 1 && (forall|j: int|
            0 <= j < kids.len() ==> #[trigger] bounds[j] <= bounds[j + 1]) && (forall|j: int|
            0 <= j < kids.len() && id < #[trigger] kids[j] < tree.instances@.len()
                ==> instance_events(
                ev.subrange(bounds[j], bounds[j + 1]),
                tree,
                options,
                m1,
                kids[j] as int,
            ));
    assert forall|j: int| 0 <= j < kids.len() && id < #[trigger] kids[j] < tree.instances@.len()
        implies instance_events(ev.subrange(bounds[j], bounds[j + 1]), tree, options, m2, kids[j] as int) by {
        lemma_instance_events_grow(ev.subrange(bounds[j], bounds[j + 1]), tree, options, m1, m2, kids[j] as int);
    }
    assert(m1.dom().contains(id as usize));
    assert(m2.dom().contains(id as usize));
    assert(properties_block(ev.subrange(3, 3 + m), inst.properties@, order, options, inst.class@));
}

/// Whether stored property `p` of a `class` instance ends the encoding.
pub open spec fn property_fails(options: EncodeOptions, class: Seq<char>, p: (String, Variant)) -> bool {
    let o = property_outcome(options, class, p.0@, p.1@);
    o is Unconvertible || o is Unknown
}

/// Whether `e` is the error that property `p` of a `class` instance gives.
pub open spec fn property_error(
    options: EncodeOptions,
    class: Seq<char>,
    p: (String, Variant),
    e: EncodeError,
) -> bool {
    property_fails(options, class, p) && outcome_result(
        property_outcome(options, class, p.0@, p.1@),
        class,
        p.0@,
        Err(e),
    )
}

/// Whether `e` is the error of the first failing property in the walk of
/// the subtree of node `id`: the node's own properties in ascending order
/// of name, then the subtrees of its children in stored order.
pub open spec fn subtree_error(tree: WeakDom, options: EncodeOptions, id: int, e: EncodeError) -> bool
    decreases tree.instances@.len() - id,
{
    if 0 <= id < tree.instances@.len() {
        let inst = tree.instances@[id];
        let props = inst.properties@;
        let kids = inst.children@;
        ||| exists|order: Seq<usize>, k: int|
            #![trigger is_sorted_order(props, order), props[order[k] as int]]
            is_sorted_order(props, order) && 0 <= k < order.len() && (forall|j: int|
                0 <= j < k ==> !property_fails(options, inst.class@, #[trigger] props[order[j] as int]))
                && property_error(options, inst.class@, props[order[k] as int], e)
        ||| (forall|k: int| 0 <= k < props.len() ==> !property_fails(options, inst.class@, #[trigger] props[k]))
            && exists|c: int|
            0 <= c < kids.len() && id < #[trigger] kids[c] < tree.instances@.len() && (forall|j: int|
                0 <= j < c ==> subtree_encodes(tree, options, #[trigger] kids[j] as int))
                && subtree_error(tree, options, kids[c] as int, e)
    } else {
        false
    }
}

/// Whether no property of node `id` or of a node below it ends the
/// encoding.
pub open spec fn subtree_encodes(tree: WeakDom, options: EncodeOptions, id: int) -> bool
    decreases tree.instances@.len() - id,
{
    if 0 <= id < tree.instances@.len() {
        let inst = tree.instances@[id];
        &&& forall|k: int|
            0 <= k < inst.properties@.len() ==> !property_fails(
                options,
                inst.class@,
                #[trigger] inst.properties@[k],
            )
        &&& forall|c: int|
            0 <= c < inst.children@.len() && id < #[trigger] inst.children@[c]
                < tree.instances@.len() ==> subtree_encodes(
                tree,
                options,
                inst.children@[c] as int,
            )
    } else {
        true
    }
}

/// Encodes node `id` and its subtree: the instance element, its properties
/// in ascending order of stored name after the synthetic `Name`, then each
/// child in stored order. Fails with the first property error.
#[verifier::rlimit(100)]
pub fn serialize_instance(
    out: &mut Vec<XmlEvent>,
    state: &mut EmitState,
    tree: &WeakDom,
    id: usize,
) -> (r: Result<(), EncodeError>)
    requires
        tree.wf(),
        tree.shared_strings_bounded(),
        id < tree.instances@.len(),
        tree.instances@.len() <= u32::MAX,
        old(state).wf(tree.instances@.len() as nat),
    ensures
        r is Ok <==> subtree_encodes(*tree, old(state).options, id as int),
        r matches Err(e) ==> subtree_error(*tree, old(state).options, id as int, e),
        r is Ok ==> final(state).wf(tree.instances@.len() as nat),
        r is Ok ==> final(state).options == old(state).options,
        r is Ok ==> old(state).referent_map@.submap_of(final(state).referent_map@),
        r is Ok ==> final(state).referent_map@.contains_key(id),
        r is Ok ==> (final(state).referent_map@, final(state).next_referent as int) == assign(
            old(state).referent_map@,
            old(state).next_referent as int,
            preorder(*tree, id as int),
        ),
        r is Ok && old(state).referent_map@.contains_key(id) ==> final(state).referent_map@[id]
            == old(state).referent_map@[id],
        r is Ok && !old(state).referent_map@.contains_key(id) ==> final(state).referent_map@[id]
            == old(state).next_referent,
        r is Ok ==> final(out)@.len() >= old(out)@.len() && final(out)@.subrange(
            0,
            old(out)@.len() as int,
        ) == old(out)@,
        r is Ok ==> instance_events(
            final(out)@.subrange(old(out)@.len() as int, final(out)@.len() as int),
            *tree,
            old(state).options,
            final(state).referent_map@,
            id as int,
        ),
        r is Ok ==> (final(out)@[old(out)@.len() as int] matches XmlEvent::StartItem {
            referent,
            ..
        } && referent == final(state).referent_map@[id]),
        r is Ok ==> registry_grows(
            old(state).shared_strings_to_emit@,
            final(state).shared_strings_to_emit@,
        ),
        r is Ok ==> refs_covered(
            final(out)@.subrange(old(out)@.len() as int, final(out)@.len() as int),
            final(state).shared_strings_to_emit@,
        ),
        r is Ok ==> new_entries_referenced(
            old(state).shared_strings_to_emit@,
            final(state).shared_strings_to_emit@,
            final(out)@.subrange(old(out)@.len() as int, final(out)@.len() as int),
        ),
    decreases tree.instances@.len() - id,
{
    let ghost n = tree.instances@.len() as nat;
    let ghost start = old(out)@.len() as int;
    let instance = &tree.instances[id];
    proof {
        if !state.referent_map@.contains_key(id) {
            lemma_room_for_referent(state.referent_map@, state.next_referent, tree.instances@.len() as usize, id);
        }
    }
    let mapped_id = state.map_id(id);
    let ghost map0 = state.referent_map@;
    let ghost next0 = state.next_referent;
    proof {
        assert(seq![id].drop_last() =~= Seq::<usize>::empty());
        assert(seq![id].last() == id);
        assert(assign(old(state).referent_map@, old(state).next_referent as int, Seq::<usize>::empty())
            == (old(state).referent_map@, old(state).next_referent as int));
        assert((map0, next0 as int) == assign(old(state).referent_map@, old(state).next_referent as int, seq![id]));
        assert(seq![id] + preorder_below(*tree, id as int, 0) =~= seq![id]);
    }
    out.push(XmlEvent::StartItem { class: instance.class.clone(), referent: mapped_id });
    out.push(XmlEvent::StartProperties);
    emit_property(out, state, "Name".to_owned(), Variant::String(instance.name.clone()));
    proof {
        reveal_strlit("Name");
        assert("Name"@ =~= seq!['N', 'a', 'm', 'e']);
        let es = state.shared_strings_to_emit@;
        assert(out@.subrange(start, out@.len() as int) =~= seq![out@[start], out@[start + 1], out@[start + 2]]);
        assert(refs_covered(out@.subrange(start, out@.len() as int), es));
        assert forall|i: int| 0 <= i < es.len() implies es.contains(#[trigger] es[i]) by {}
        lemma_no_new_entries(es, out@.subrange(start, out@.len() as int));
    }
    let ghost head = out@;
    proof {
        assert(head.len() == start + 3);
        assert(head.subrange(0, start) =~= old(out)@);
    }
    let order = sorted_property_order(&instance.properties);
    let mut k: usize = 0;
    while k < order.len()
        invariant
            tree.wf(),
            tree.shared_strings_bounded(),
            id < tree.instances@.len(),
            n == tree.instances@.len(),
            instance == tree.instances@[id as int],
            is_sorted_order(instance.properties@, order@),
            k <= order@.len(),
            state.wf(n),
            state.options == old(state).options,
            state.referent_map@ == map0,
            state.next_referent == next0,
            head.len() == start + 3,
            start == old(out)@.len(),
            registry_grows(old(state).shared_strings_to_emit@, state.shared_strings_to_emit@),
            refs_covered(out@.subrange(start, out@.len() as int), state.shared_strings_to_emit@),
            new_entries_referenced(
                old(state).shared_strings_to_emit@,
                state.shared_strings_to_emit@,
                out@.subrange(start, out@.len() as int),
            ),
            properties_block(
                out@.subrange(head.len() as int, out@.len() as int),
                instance.properties@,
                order@.subrange(0, k as int),
                old(state).options,
                instance.class@,
            ),
            forall|j: int|
                0 <= j < k ==> !property_fails(
                    old(state).options,
                    instance.class@,
                    #[trigger] instance.properties@[order@[j] as int],
                ),
            out@.len() >= head.len(),
            out@.subrange(0, head.len() as int) == head,
        decreases order@.len() - k,
    {
        let p = &instance.properties[order[k]];
        let ghost before_k = out@;
        proof {
            assert(order@.subrange(0, k + 1).drop_last() =~= order@.subrange(0, k as int));
        }
        match encode_property(&state.options, &instance.class, &p.0, &p.1) {
            Err(e) => {
                proof {
                    assert(property_fails(old(state).options, instance.class@, instance.properties@[order@[k as int] as int]));
                    assert(property_error(old(state).options, instance.class@, instance.properties@[order@[k as int] as int], e));
                    assert(subtree_error(*tree, old(state).options, id as int, e));
                }
                return Err(e);
            },
            Ok(None) => {},
            Ok(Some((name, value))) => {
                proof {
                    if let VariantValue::SharedString(d) = value@ {
                        lemma_written_shared_string(
                            state.options,
                            instance.class@,
                            p.0@,
                            p.1@,
                            name@,
                            d,
                        );
                        assert(tree.instances@[id as int].properties@[order@[k as int] as int].1
                            == p.1);
                    }
                }
                let ghost before = out@;
                let ghost reg_before = state.shared_strings_to_emit@;
                emit_property(out, state, name, value);
                proof {
                    lemma_covered_grow(before.subrange(start, before.len() as int), reg_before, state.shared_strings_to_emit@);
                    lemma_covered_push(before.subrange(start, before.len() as int), out@.last(), state.shared_strings_to_emit@);
                    assert(out@.subrange(start, out@.len() as int) =~= before.subrange(start, before.len() as int).push(out@.last()));
                    lemma_registry_grows_transitive(old(state).shared_strings_to_emit@, reg_before, state.shared_strings_to_emit@);
                    lemma_new_entries_step(
                        old(state).shared_strings_to_emit@,
                        reg_before,
                        state.shared_strings_to_emit@,
                        before.subrange(start, before.len() as int),
                        seq![out@.last()],
                    );
                    assert(out@.subrange(start, out@.len() as int) =~= before.subrange(start, before.len() as int) + seq![out@.last()]);
                    assert(out@.subrange(0, head.len() as int) =~= before.subrange(0, head.len() as int));
                    assert(out@.subrange(head.len() as int, out@.len() as int).drop_last()
                        =~= before.subrange(head.len() as int, before.len() as int));
                }
            },
        }
        k = k + 1;
    }
    proof {
        assert forall|q: int| 0 <= q < instance.properties@.len() implies !property_fails(
            old(state).options,
            instance.class@,
            #[trigger] instance.properties@[q],
        ) by {
            assert(order@.contains(q as usize));
            let w = choose|w: int| 0 <= w < order@.len() && order@[w] == q as usize;
            assert(instance.properties@[order@[w] as int] == instance.properties@[q]);
        }
    }
    let ghost m = out@.len() - head.len();
    proof {
        assert(order@.subrange(0, order@.len() as int) =~= order@);
    }
    let ghost block = out@.subrange(head.len() as int, out@.len() as int);
    proof {
        assert(properties_block(block, instance.properties@, order@, old(state).options, instance.class@));
    }
    let ghost before_end_props = out@;
    out.push(XmlEvent::EndProperties);
    proof {
        lemma_covered_push(before_end_props.subrange(start, before_end_props.len() as int), XmlEvent::EndProperties, state.shared_strings_to_emit@);
        assert(out@.subrange(start, out@.len() as int) =~= before_end_props.subrange(start, before_end_props.len() as int).push(XmlEvent::EndProperties));
        lemma_no_new_entries(state.shared_strings_to_emit@, seq![XmlEvent::EndProperties]);
        lemma_new_entries_step(
            old(state).shared_strings_to_emit@,
            state.shared_strings_to_emit@,
            state.shared_strings_to_emit@,
            before_end_props.subrange(start, before_end_props.len() as int),
            seq![XmlEvent::EndProperties],
        );
        assert(out@.subrange(start, out@.len() as int) =~= before_end_props.subrange(start, before_end_props.len() as int) + seq![XmlEvent::EndProperties]);
    }
    let ghost mut bounds: Seq<int> = seq![4 + m];
    let mut c: usize = 0;
    while c < instance.children.len()
        invariant
            tree.wf(),
            tree.shared_strings_bounded(),
            id < tree.instances@.len(),
            n == tree.instances@.len(),
            n <= u32::MAX,
            instance == tree.instances@[id as int],
            c <= instance.children@.len(),
            state.wf(n),
            state.options == old(state).options,
            map0.submap_of(state.referent_map@),
            (state.referent_map@, state.next_referent as int) == assign(
                old(state).referent_map@,
                old(state).next_referent as int,
                seq![id] + preorder_below(*tree, id as int, c as int),
            ),
            forall|k: int|
                0 <= k < instance.properties@.len() ==> !property_fails(
                    old(state).options,
                    instance.class@,
                    #[trigger] instance.properties@[k],
                ),
            forall|j: int|
                0 <= j < c ==> subtree_encodes(
                    *tree,
                    old(state).options,
                    #[trigger] instance.children@[j] as int,
                ),
            m >= 0,
            head.len() == start + 3,
            start == old(out)@.len(),
            registry_grows(old(state).shared_strings_to_emit@, state.shared_strings_to_emit@),
            refs_covered(out@.subrange(start, out@.len() as int), state.shared_strings_to_emit@),
            new_entries_referenced(
                old(state).shared_strings_to_emit@,
                state.shared_strings_to_emit@,
                out@.subrange(start, out@.len() as int),
            ),
            is_sorted_order(instance.properties@, order@),
            properties_block(block, instance.properties@, order@, old(state).options, instance.class@),
            out@.len() >= head.len() + m + 1,
            out@.subrange(0, head.len() as int) == head,
            out@.subrange(head.len() as int, head.len() + m) == block,
            out@[head.len() + m] matches XmlEvent::EndProperties,
            bounds.len() == c + 1,
            bounds[0] == 4 + m,
            bounds.last() == out@.len() - start,
            forall|j: int| 0 <= j < c ==> #[trigger] bounds[j] <= bounds[j + 1],
            forall|j: int| 0 <= j <= c ==> 4 + m <= #[trigger] bounds[j] <= bounds.last(),
            forall|j: int|
                0 <= j < c ==> instance_events(
                    out@.subrange(start + bounds[j], start + bounds[j + 1]),
                    *tree,
                    old(state).options,
                    state.referent_map@,
                    #[trigger] instance.children@[j] as int,
                ),
        decreases instance.children@.len() - c,
    {
        let child = instance.children[c];
        proof {
            assert(id < tree.instances@[id as int].children@[c as int]);
        }
        let ghost before = out@;
        let ghost map_before = state.referent_map@;
        let ghost reg_before = state.shared_strings_to_emit@;
        match serialize_instance(out, state, tree, child) {
            Err(e) => {
                proof {
                    assert(!subtree_encodes(*tree, old(state).options, child as int));
                    assert(tree.instances@[id as int].children@[c as int] == child);
                    assert(subtree_error(*tree, old(state).options, id as int, e));
                }
                return Err(e);
            },
            Ok(()) => {},
        }
        proof {
            assert(out@.subrange(0, head.len() as int) =~= before.subrange(0, head.len() as int));
            assert(out@.subrange(head.len() as int, head.len() + m) =~= before.subrange(head.len() as int, head.len() + m));
            assert(out@[head.len() + m] == before[head.len() + m]);
            assert(out@.subrange(before.len() as int, out@.len() as int) =~= out@.subrange(
                start + bounds.last(),
                start + (out@.len() - start),
            ));
            let ghost_c1 = c + 1;
            assert(ghost_c1 - 1 == c);
            assert(tree.instances@[id as int].children@[ghost_c1 - 1] == child);
            assert(preorder_below(*tree, id as int, ghost_c1) == preorder_below(*tree, id as int, c as int)
                + seq![child] + preorder_below(*tree, child as int, tree.instances@[child as int].children@.len() as int));
            lemma_assign_concat(
                old(state).referent_map@,
                old(state).next_referent as int,
                seq![id] + preorder_below(*tree, id as int, c as int),
                preorder(*tree, child as int),
            );
            assert(seq![id] + preorder_below(*tree, id as int, ghost_c1) =~= (seq![id] + preorder_below(*tree, id as int, c as int))
                + preorder(*tree, child as int));
            let reg = state.shared_strings_to_emit@;
            lemma_covered_grow(before.subrange(start, before.len() as int), reg_before, reg);
            lemma_covered_concat(
                before.subrange(start, before.len() as int),
                out@.subrange(before.len() as int, out@.len() as int),
                reg,
            );
            assert(out@.subrange(start, out@.len() as int) =~= before.subrange(start, before.len() as int)
                + out@.subrange(before.len() as int, out@.len() as int));
            lemma_registry_grows_transitive(old(state).shared_strings_to_emit@, reg_before, reg);
            lemma_new_entries_step(
                old(state).shared_strings_to_emit@,
                reg_before,
                reg,
                before.subrange(start, before.len() as int),
                out@.subrange(before.len() as int, out@.len() as int),
            );
            let old_bounds = bounds;
            bounds = bounds.push(out@.len() - start);
            assert forall|j: int| 0 <= j < c + 1 implies instance_events(
                out@.subrange(start + bounds[j], start + bounds[j + 1]),
                *tree,
                old(state).options,
                state.referent_map@,
                #[trigger] instance.children@[j] as int,
            ) by {
                if j < c {
                    lemma_instance_events_grow(
                        before.subrange(start + old_bounds[j], start + old_bounds[j + 1]),
                        *tree,
                        old(state).options,
                        map_before,
                        state.referent_map@,
                        instance.children@[j] as int,
                    );
                    assert(bounds[j] == old_bounds[j]);
                    assert(bounds[j + 1] == old_bounds[j + 1]);
                    assert(old_bounds[j + 1] <= old_bounds.last());
                    assert(out@.subrange(start + bounds[j], start + bounds[j + 1]) =~= before.subrange(
                        start + bounds[j],
                        start + bounds[j + 1],
                    ));
                }
            }
            assert forall|j: int| 0 <= j < c + 1 implies #[trigger] bounds[j] <= bounds[j + 1] by {
                if j < c {
                    assert(bounds[j] == old_bounds[j]);
                    assert(bounds[j + 1] == old_bounds[j + 1]);
                }
            }
            assert forall|j: int| 0 <= j <= c + 1 implies 4 + m <= #[trigger] bounds[j] <= bounds.last() by {
                if j <= c {
                    assert(bounds[j] == old_bounds[j]);
                }
            }
            assert forall|key: usize| #[trigger] map0.contains_key(key) implies state.referent_map@.contains_key(key)
                && state.referent_map@[key] == map0[key] by {
                assert(map_before.contains_key(key));
            }
        }
        c = c + 1;
    }
    let ghost pre_end = out@;
    out.push(XmlEvent::EndItem);
    proof {
        lemma_covered_push(pre_end.subrange(start, pre_end.len() as int), XmlEvent::EndItem, state.shared_strings_to_emit@);
        assert(out@.subrange(start, out@.len() as int) =~= pre_end.subrange(start, pre_end.len() as int).push(XmlEvent::EndItem));
        lemma_no_new_entries(state.shared_strings_to_emit@, seq![XmlEvent::EndItem]);
        lemma_new_entries_step(
            old(state).shared_strings_to_emit@,
            state.shared_strings_to_emit@,
            state.shared_strings_to_emit@,
            pre_end.subrange(start, pre_end.len() as int),
            seq![XmlEvent::EndItem],
        );
        assert(out@.subrange(start, out@.len() as int) =~= pre_end.subrange(start, pre_end.len() as int) + seq![XmlEvent::EndItem]);
        assert(out@.subrange(head.len() as int, head.len() + m) =~= pre_end.subrange(head.len() as int, head.len() + m));
        assert(out@[head.len() + m] == pre_end[head.len() + m]);
        assert forall|j: int| 0 <= j < instance.children@.len() && id < #[trigger] instance.children@[j]
            < tree.instances@.len() implies subtree_encodes(*tree, old(state).options, instance.children@[j] as int) by {}
        assert(subtree_encodes(*tree, old(state).options, id as int));
        assert(map0.contains_key(id));
        assert(out@[start] == head[start]);
        assert(out@[start + 1] == head[start + 1]);
        assert(out@[start + 2] == head[start + 2]);
        assert(out@.subrange(0, start) =~= out@.subrange(0, head.len() as int).subrange(0, start));
        assert(out@.subrange(0, start) =~= old(out)@);
        assert(out@.subrange(start + 3, start + 3 + m) =~= out@.subrange(head.len() as int, head.len() + m));
        assert(properties_block(
            out@.subrange(start + 3, start + 3 + m),
            instance.properties@,
            order@,
            old(state).options,
            instance.class@,
        ));
        assert forall|key: usize| #[trigger] old(state).referent_map@.contains_key(key) implies state.referent_map@.contains_key(key)
            && state.referent_map@[key] == old(state).referent_map@[key] by {
            assert(map0.contains_key(key));
            assert(map0[key] == old(state).referent_map@[key]);
            assert(map0.dom().contains(key));
            assert(state.referent_map@.dom().contains(key));
            assert(state.referent_map@[key] == map0[key]);
        }
        assert(state.referent_map@.dom().contains(id));
        assert(state.referent_map@[id] == map0[id]);
        let e = out@.subrange(start, out@.len() as int);
        assert(e.subrange(3, 3 + m) =~= out@.subrange(start + 3, start + 3 + m));
        assert(e[3 + m] == out@[head.len() + m]);
        assert(e[0] == out@[start]);
        assert(e[1] == out@[start + 1]);
        assert(e[2] == out@[start + 2]);
        assert forall|j: int| 0 <= j < instance.children@.len() implies instance_events(
            e.subrange(bounds[j], bounds[j + 1]),
            *tree,
            old(state).options,
            state.referent_map@,
            #[trigger] instance.children@[j] as int,
        ) by {
            assert(4 + m <= bounds[j + 1] <= bounds.last());
            assert(e.subrange(bounds[j], bounds[j + 1]) =~= pre_end.subrange(start + bounds[j], start + bounds[j + 1]));
        }
        assert(properties_block(e.subrange(3, 3 + m), instance.properties@, order@, old(state).options, instance.class@));
        assert(instance_events(e, *tree, old(state).options, state.referent_map@, id as int));
    }
    Ok(())
}

} // verus!

verus! {

/// Whether `out` is `before` followed by the block of shared payloads `es`
/// in their order: one entry each, with its fingerprint and its base64
/// text. No payload writes nothing.
pub open spec fn is_shared_strings_events(
    before: Seq<XmlEvent>,
    out: Seq<XmlEvent>,
    es: Seq<(Seq<u8>, Seq<u8>)>,
) -> bool {
    let s = before.len() as int;
    if es.len() == 0 {
        out == before
    } else {
        &&& out.len() == s + es.len() + 2
        &&& out.subrange(0, s) == before
        &&& out[s] matches XmlEvent::StartSharedStrings
        &&& forall|i: int|
            0 <= i < es.len() ==> (#[trigger] out[s + 1 + i] matches XmlEvent::SharedString {
                md5,
                data,
            } && md5@ == base64_of(es[i].0.subrange(0, 16)) && data@ == base64_of(es[i].1))
        &&& out.last() matches XmlEvent::EndSharedStrings
    }
}

/// Writes the registered shared payloads in ascending order of content
/// hash, inside one block; writes nothing when there is none.
pub fn serialize_shared_strings(out: &mut Vec<XmlEvent>, state: &EmitState)
    requires
        state.shared_strings_to_emit.wf(),
    ensures
        is_shared_strings_events(old(out)@, final(out)@, state.shared_strings_to_emit@),
{
    let registry = &state.shared_strings_to_emit;
    if registry.is_empty() {
        return;
    }
    let ghost s = old(out)@.len() as int;
    let ghost es = registry@;
    out.push(XmlEvent::StartSharedStrings);
    let mut i: usize = 0;
    while i < registry.entries.len()
        invariant
            es == registry@,
            s == old(out)@.len(),
            registry.wf(),
            i <= es.len(),
            out@.len() == s + 1 + i,
            out@.subrange(0, s) == old(out)@,
            out@[s] matches XmlEvent::StartSharedStrings,
            forall|j: int|
                0 <= j < i ==> (#[trigger] out@[s + 1 + j] matches XmlEvent::SharedString {
                    md5,
                    data,
                } && md5@ == base64_of(es[j].0.subrange(0, 16)) && data@ == base64_of(es[j].1)),
        decreases es.len() - i,
    {
        let entry = &registry.entries[i];
        proof {
            assert(es[i as int].0 == entry.0@);
            assert(es[i as int].1 == entry.1@);
        }
        let md5 = fingerprint(&entry.0);
        let data = base64_encode(entry.1.as_slice());
        let ghost before = out@;
        out.push(XmlEvent::SharedString { md5, data });
        proof {
            assert(out@[s] == before[s]);
            assert(out@.subrange(0, s) =~= before.subrange(0, s));
        }
        i = i + 1;
    }
    let ghost before = out@;
    out.push(XmlEvent::EndSharedStrings);
    proof {
        assert(out@.subrange(0, s) =~= before.subrange(0, s));
        assert forall|j: int| 0 <= j < es.len() implies (#[trigger] out@[s + 1 + j] matches XmlEvent::SharedString {
            md5,
            data,
        } && md5@ == base64_of(es[j].0.subrange(0, 16)) && data@ == base64_of(es[j].1)) by {
            assert(out@[s + 1 + j] == before[s + 1 + j]);
        }
    }
}

/// Whether `e` is the error of the first failing property in the walk of
/// the subtrees of `ids`, and it lies in the subtree of `ids[t]`.
pub open spec fn first_error(
    tree: WeakDom,
    options: EncodeOptions,
    ids: Seq<usize>,
    e: EncodeError,
    t: int,
) -> bool {
    &&& 0 <= t < ids.len()
    &&& forall|j: int| 0 <= j < t ==> subtree_encodes(tree, options, #[trigger] ids[j] as int)
    &&& subtree_error(tree, options, ids[t] as int, e)
}

/// Whether every top-level node in `ids` encodes without error.
pub open spec fn all_encode(tree: WeakDom, options: EncodeOptions, ids: Seq<usize>) -> bool {
    forall|i: int| 0 <= i < ids.len() ==> subtree_encodes(tree, options, #[trigger] ids[i] as int)
}

/// The subtrees of `ids`, one after the other, each in pre-order.
pub open spec fn forest_preorder(tree: WeakDom, ids: Seq<usize>) -> Seq<usize>
    decreases ids.len(),
{
    if ids.len() == 0 {
        Seq::empty()
    } else {
        forest_preorder(tree, ids.drop_last()) + preorder(tree, ids.last() as int)
    }
}

/// The referents of one encoding of the subtrees of `ids`: handed out from
/// 0 on first visit in pre-order.
pub open spec fn document_referents(tree: WeakDom, ids: Seq<usize>) -> Map<usize, u32> {
    assign(Map::empty(), 0, forest_preorder(tree, ids)).0
}

/// Whether `out` is a complete document for the nodes `ids` of `tree`: the
/// root element opens, the instance element of each node follows in the
/// order of `ids`, then the block of a registry `es` of shared payloads,
/// and the root element closes. The referents of the elements are those
/// handed out on first visit in the pre-order walk of the subtrees of
/// `ids`, from 0; every reference to a shared
/// payload names an entry of the block, and every entry is referred to.
pub open spec fn document_events(
    out: Seq<XmlEvent>,
    tree: WeakDom,
    options: EncodeOptions,
    ids: Seq<usize>,
) -> bool {
    let referents = document_referents(tree, ids);
    exists|bounds: Seq<int>, es: Seq<(Seq<u8>, Seq<u8>)>|
        #![trigger registry_wf(es), bounds.len()]
        {
            &&& out.len() >= 2
            &&& out[0] == (XmlEvent::StartDocument { version: FORMAT_VERSION })
            &&& out.last() matches XmlEvent::EndDocument
            &&& bounds.len() == ids.len() + 1
            &&& bounds[0] == 1
            &&& bounds.last() <= out.len() - 1
            &&& forall|j: int| 0 <= j <= ids.len() ==> 1 <= #[trigger] bounds[j] <= bounds.last()
            &&& forall|j: int| 0 <= j < ids.len() ==> #[trigger] bounds[j] <= bounds[j + 1]
            &&& forall|j: int|
                0 <= j < ids.len() ==> instance_events(
                    out.subrange(bounds[j], bounds[j + 1]),
                    tree,
                    options,
                    referents,
                    #[trigger] ids[j] as int,
                )
            &&& registry_wf(es)
            &&& is_shared_strings_events(out.subrange(0, bounds.last()), out.drop_last(), es)
            &&& refs_covered(out, es)
            &&& forall|i: int| 0 <= i < es.len() ==> referenced(out, #[trigger] es[i])
        }
}

/// The instance elements, then the block of payloads and the end of the
/// root, make a complete document.
proof fn lemma_document_complete(
    out: Seq<XmlEvent>,
    before: Seq<XmlEvent>,
    pre_end: Seq<XmlEvent>,
    tree: WeakDom,
    options: EncodeOptions,
    ids: Seq<usize>,
    bounds: Seq<int>,
    es: Seq<(Seq<u8>, Seq<u8>)>,
    referents: Map<usize, u32>,
)
    requires
        out == pre_end.push(XmlEvent::EndDocument),
        is_shared_strings_events(before, pre_end, es),
        registry_wf(es),
        before.len() >= 1,
        pre_end[0] == (XmlEvent::StartDocument { version: FORMAT_VERSION }),
        before[0] == (XmlEvent::StartDocument { version: FORMAT_VERSION }),
        bounds.len() == ids.len() + 1,
        bounds[0] == 1,
        bounds.last() == before.len(),
        forall|j: int| 0 <= j <= ids.len() ==> 1 <= #[trigger] bounds[j] <= bounds.last(),
        forall|j: int| 0 <= j < ids.len() ==> #[trigger] bounds[j] <= bounds[j + 1],
        forall|j: int|
            0 <= j < ids.len() ==> instance_events(
                before.subrange(bounds[j], bounds[j + 1]),
                tree,
                options,
                referents,
                #[trigger] ids[j] as int,
            ),
        referents == document_referents(tree, ids),
        refs_covered(before, es),
        new_entries_referenced(Seq::empty(), es, before),
    ensures
        document_events(out, tree, options, ids),
{
    assert(out.drop_last() =~= pre_end);
    assert(pre_end.len() >= before.len()) by {
        if es.len() != 0 {
        } else {
        }
    }
    assert(out.subrange(0, bounds.last()) =~= before) by {
        if es.len() != 0 {
            assert(pre_end.subrange(0, before.len() as int) == before);
        }
    }
    assert forall|j: int| 0 <= j < ids.len() implies instance_events(
        out.subrange(bounds[j], bounds[j + 1]),
        tree,
        options,
        referents,
        #[trigger] ids[j] as int,
    ) by {
        assert(bounds[j + 1] <= bounds.last());
        assert(out.subrange(bounds[j], bounds[j + 1]) =~= before.subrange(bounds[j], bounds[j + 1]));
    }
    assert(out =~= before + out.subrange(before.len() as int, out.len() as int)) by {
        assert(out.subrange(0, bounds.last()) =~= before);
    }
    assert forall|i: int| 0 <= i < es.len() implies referenced(out, #[trigger] es[i]) by {
        assert(!Seq::<(Seq<u8>, Seq<u8>)>::empty().contains(es[i]));
        lemma_referenced_concat(before, out.subrange(before.len() as int, out.len() as int), es[i]);
    }
    assert forall|p: int| 0 <= p < out.len() implies covered_event(#[trigger] out[p], es) by {
        if p < before.len() {
            assert(out.subrange(0, bounds.last())[p] == before[p]);
        } else if p < pre_end.len() {
            let s0 = before.len() as int;
            if p > s0 {
                assert(pre_end[s0 + 1 + (p - s0 - 1)] == out[p]);
            }
        }
    }
    assert(out[0] == pre_end[0]);
    assert(document_events(out, tree, options, ids));
}

/// Encodes the nodes `ids` of `tree`, in that order, each with its subtree,
/// into a complete document: the root element, the instances, the shared
/// payloads they use, and the end of the root. Fails exactly when some
/// property of an encoded node cannot be resolved or converted.
#[verifier::rlimit(100)]
pub fn encode_internal(tree: &WeakDom, ids: &Vec<usize>, options: EncodeOptions) -> (r: Result<
    Vec<XmlEvent>,
    EncodeError,
>)
    requires
        tree.wf(),
        tree.shared_strings_bounded(),
        tree.instances@.len() <= u32::MAX,
        forall|i: int| 0 <= i < ids@.len() ==> #[trigger] ids@[i] < tree.instances@.len(),
    ensures
        r is Ok <==> all_encode(*tree, options, ids@),
        r matches Err(e) ==> exists|t: int| #[trigger] first_error(*tree, options, ids@, e, t),
        r matches Ok(out) ==> out@.len() >= 2 && out@[0] == (XmlEvent::StartDocument {
            version: FORMAT_VERSION,
        }) && out@.last() matches XmlEvent::EndDocument,
        r matches Ok(out) ==> document_events(out@, *tree, options, ids@),
        ids@.len() == 0 ==> (r matches Ok(out) && out@.len() == 2),
        ids@.len() > 0 ==> (r matches Ok(out) ==> out@[1] matches XmlEvent::StartItem {
            referent,
            ..
        } && referent == 0),
{
    let ghost opts = options;
    let mut out: Vec<XmlEvent> = Vec::new();
    let mut state = EmitState::new(options);
    out.push(XmlEvent::StartDocument { version: FORMAT_VERSION });
    let ghost mut bounds: Seq<int> = seq![1];
    proof {
        assert(ids@.subrange(0, 0) =~= Seq::<usize>::empty());
        assert(forest_preorder(*tree, Seq::<usize>::empty()) == Seq::<usize>::empty());
        assert(assign(Map::empty(), 0, Seq::<usize>::empty()) == (Map::<usize, u32>::empty(), 0int));
    }
    let mut i: usize = 0;
    while i < ids.len()
        invariant
            tree.wf(),
            tree.shared_strings_bounded(),
            tree.instances@.len() <= u32::MAX,
            forall|j: int| 0 <= j < ids@.len() ==> #[trigger] ids@[j] < tree.instances@.len(),
            i <= ids@.len(),
            state.wf(tree.instances@.len() as nat),
            state.options == opts,
            opts == options,
            i == 0 ==> state.shared_strings_to_emit@.len() == 0,
            out@.len() >= 1,
            out@[0] == (XmlEvent::StartDocument { version: FORMAT_VERSION }),
            i == 0 ==> out@.len() == 1,
            i == 0 ==> state.next_referent == 0 && state.referent_map@ == Map::<usize, u32>::empty(),
            refs_covered(out@, state.shared_strings_to_emit@),
            new_entries_referenced(Seq::empty(), state.shared_strings_to_emit@, out@),
            (state.referent_map@, state.next_referent as int) == assign(
                Map::empty(),
                0,
                forest_preorder(*tree, ids@.subrange(0, i as int)),
            ),
            i > 0 ==> out@.len() >= 2 && (out@[1] matches XmlEvent::StartItem { referent, .. }
                && referent == 0),
            forall|j: int| 0 <= j < i ==> subtree_encodes(*tree, opts, #[trigger] ids@[j] as int),
            bounds.len() == i + 1,
            bounds[0] == 1,
            bounds.last() == out@.len(),
            forall|j: int| 0 <= j <= i ==> 1 <= #[trigger] bounds[j] <= bounds.last(),
            forall|j: int| 0 <= j < i ==> #[trigger] bounds[j] <= bounds[j + 1],
            forall|j: int|
                0 <= j < i ==> instance_events(
                    out@.subrange(bounds[j], bounds[j + 1]),
                    *tree,
                    opts,
                    state.referent_map@,
                    #[trigger] ids@[j] as int,
                ),
        decreases ids@.len() - i,
    {
        let ghost before = out@;
        let ghost map_before = state.referent_map@;
        let ghost reg_before = state.shared_strings_to_emit@;
        match serialize_instance(&mut out, &mut state, tree, ids[i]) {
            Err(e) => {
                proof {
                    assert(!subtree_encodes(*tree, opts, ids@[i as int] as int));
                    assert(!all_encode(*tree, opts, ids@));
                    assert(first_error(*tree, opts, ids@, e, i as int));
                }
                return Err(e);
            },
            Ok(()) => {},
        }
        proof {
            assert(out@[0] == out@.subrange(0, before.len() as int)[0]);
            if i == 0 {
                assert(out@[1] == out@.subrange(before.len() as int, out@.len() as int)[0]);
            } else {
                assert(out@[1] == before[1]);
            }
            let reg = state.shared_strings_to_emit@;
            lemma_covered_grow(before, reg_before, reg);
            lemma_covered_concat(before, out@.subrange(before.len() as int, out@.len() as int), reg);
            lemma_new_entries_step(
                Seq::empty(),
                reg_before,
                reg,
                before,
                out@.subrange(before.len() as int, out@.len() as int),
            );
            assert(ids@.subrange(0, i + 1).drop_last() =~= ids@.subrange(0, i as int));
            assert(ids@.subrange(0, i + 1).last() == ids@[i as int]);
            lemma_assign_concat(
                Map::empty(),
                0,
                forest_preorder(*tree, ids@.subrange(0, i as int)),
                preorder(*tree, ids@[i as int] as int),
            );
            assert(out@ =~= before + out@.subrange(before.len() as int, out@.len() as int));
            let old_bounds = bounds;
            bounds = bounds.push(out@.len() as int);
            assert forall|j: int| 0 <= j < i + 1 implies instance_events(
                out@.subrange(bounds[j], bounds[j + 1]),
                *tree,
                opts,
                state.referent_map@,
                #[trigger] ids@[j] as int,
            ) by {
                if j < i {
                    lemma_instance_events_grow(
                        before.subrange(old_bounds[j], old_bounds[j + 1]),
                        *tree,
                        opts,
                        map_before,
                        state.referent_map@,
                        ids@[j] as int,
                    );
                    assert(bounds[j] == old_bounds[j]);
                    assert(bounds[j + 1] == old_bounds[j + 1]);
                    assert(out@.subrange(bounds[j], bounds[j + 1]) =~= before.subrange(
                        bounds[j],
                        bounds[j + 1],
                    ));
                } else {
                    assert(out@.subrange(bounds[j], bounds[j + 1]) =~= out@.subrange(
                        before.len() as int,
                        out@.len() as int,
                    ));
                }
            }
            assert forall|j: int| 0 <= j < i + 1 implies #[trigger] bounds[j] <= bounds[j + 1] by {
                if j < i {
                    assert(bounds[j] == old_bounds[j]);
                    assert(bounds[j + 1] == old_bounds[j + 1]);
                }
            }
            assert forall|j: int| 0 <= j <= i + 1 implies 1 <= #[trigger] bounds[j] <= bounds.last() by {
                if j <= i {
                    assert(bounds[j] == old_bounds[j]);
                }
            }
        }
        i = i + 1;
    }
    let ghost before = out@;
    serialize_shared_strings(&mut out, &state);
    proof {
        if state.shared_strings_to_emit@.len() != 0 {
            assert(out@[0] == out@.subrange(0, before.len() as int)[0]);
        }
    }
    let ghost pre_end = out@;
    out.push(XmlEvent::EndDocument);
    proof {
        let es = state.shared_strings_to_emit@;
        if es.len() != 0 {
            assert(pre_end[0] == before[0]);
        }
        if ids@.len() > 0 {
            assert(out@[1] == before[1]);
        }
        assert(ids@.subrange(0, ids@.len() as int) =~= ids@);
        lemma_document_complete(out@, before, pre_end, *tree, options, ids@, bounds, es, state.referent_map@);
    }
    Ok(out)
}

} // verus!

verus! {

/// Referent uniqueness: in an assignment of referents, as one encoding
/// builds it, distinct nodes hold distinct referents, each below the count
/// handed out. The assignment of a document is [`document_referents`],
/// first visit in pre-order from 0 (see
/// [`lemma_document_referents_preorder`]).
pub proof fn lemma_referents_distinct(referents: Map<usize, u32>, next: u32)
    requires
        referents_wf(referents, next),
    ensures
        forall|a: usize, b: usize|
            referents.contains_key(a) && referents.contains_key(b) && a != b ==> referents[a]
                != referents[b],
        forall|a: usize| referents.contains_key(a) ==> referents[a] < next,
        referents.dom().len() == next,
{
}

} // verus!

verus! {

/// The policy matrix: a property the schema does not resolve is left out
/// under `IgnoreUnknown`, written as stored under `WriteUnknown`, fails
/// under `ErrorOnUnknown`; under `NoReflection` every property is written
/// as stored, resolvable or not.
pub proof fn lemma_policy_matrix(
    options: EncodeOptions,
    class: Seq<char>,
    name: Seq<char>,
    v: VariantValue,
)
    ensures
        options.property_behavior == EncodePropertyBehavior::NoReflection ==> property_outcome(
            options,
            class,
            name,
            v,
        ) == PropertyOutcome::Written(name, v),
        options.database.lookup(class, name) is None ==> {
            &&& options.property_behavior == EncodePropertyBehavior::IgnoreUnknown
                ==> property_outcome(options, class, name, v) == PropertyOutcome::Omitted
            &&& options.property_behavior == EncodePropertyBehavior::WriteUnknown
                ==> property_outcome(options, class, name, v) == PropertyOutcome::Written(name, v)
            &&& options.property_behavior == EncodePropertyBehavior::ErrorOnUnknown
                ==> property_outcome(options, class, name, v) == PropertyOutcome::Unknown
        },
{
}

/// Migration rewrite: a resolved property whose descriptor migrates it,
/// and whose converted value the migration accepts, is written under the
/// migration's name with the migrated value.
pub proof fn lemma_migration_rewrite(
    options: EncodeOptions,
    class: Seq<char>,
    name: Seq<char>,
    v: VariantValue,
)
    requires
        options.property_behavior != EncodePropertyBehavior::NoReflection,
        options.database.lookup(class, name) is Some,
    ensures
        ({
            let d = options.database.descriptors@[options.database.lookup(class, name)->0];
            let c = convert_spec(v, serialized_type(d.data_type));
            (c is Some && d.migration is Some && migrate_spec(
                d.migration->0.operation,
                c->0,
            ) is Some) ==> property_outcome(options, class, name, v) == PropertyOutcome::Written(
                d.migration->0.new_property_name@,
                migrate_spec(d.migration->0.operation, c->0)->0,
            )
        }),
{
}

/// Coercion failure: a resolved property whose value does not convert to
/// the declared type fails with the expected and the actual type, and the
/// whole encoding of a tree that holds it fails.
pub proof fn lemma_conversion_failure(
    tree: WeakDom,
    options: EncodeOptions,
    ids: Seq<usize>,
    t: int,
    id: int,
    k: int,
)
    requires
        0 <= t < ids.len(),
        ids[t] == id,
        0 <= id < tree.instances@.len(),
        0 <= k < tree.instances@[id].properties@.len(),
        options.property_behavior != EncodePropertyBehavior::NoReflection,
        options.database.lookup(
            tree.instances@[id].class@,
            tree.instances@[id].properties@[k].0@,
        ) is Some,
        ({
            let p = tree.instances@[id].properties@[k];
            let d = options.database.descriptors@[options.database.lookup(
                tree.instances@[id].class@,
                p.0@,
            )->0];
            convert_spec(p.1@, serialized_type(d.data_type)) is None
        }),
    ensures
        ({
            let p = tree.instances@[id].properties@[k];
            let d = options.database.descriptors@[options.database.lookup(
                tree.instances@[id].class@,
                p.0@,
            )->0];
            property_outcome(options, tree.instances@[id].class@, p.0@, p.1@)
                == PropertyOutcome::Unconvertible(serialized_type(d.data_type), type_of(p.1@))
        }),
        !all_encode(tree, options, ids),
{
    let inst = tree.instances@[id];
    assert(property_fails(options, inst.class@, inst.properties@[k]));
    assert(!subtree_encodes(tree, options, ids[t] as int));
}

} // verus!

verus! {

/// The nodes below the first `c` children of node `id`, in pre-order: each
/// child, then the nodes below it.
pub open spec fn preorder_below(tree: WeakDom, id: int, c: int) -> Seq<usize>
    decreases tree.instances@.len() - id, c,
{
    if c <= 0 || !(0 <= id < tree.instances@.len()) || c > tree.instances@[id].children@.len() {
        Seq::empty()
    } else {
        let ch = tree.instances@[id].children@[c - 1];
        if id < ch < tree.instances@.len() {
            preorder_below(tree, id, c - 1) + seq![ch] + preorder_below(
                tree,
                ch as int,
                tree.instances@[ch as int].children@.len() as int,
            )
        } else {
            preorder_below(tree, id, c - 1)
        }
    }
}

/// The subtree of node `id` in pre-order: the node, then its children's
/// subtrees in stored order.
pub open spec fn preorder(tree: WeakDom, id: int) -> Seq<usize> {
    seq![id as usize] + preorder_below(tree, id, tree.instances@[id].children@.len() as int)
}

/// Referents handed out on first visit: visiting `nodes` in order from the
/// assignment `m` with next referent `next`, each node not yet assigned gets
/// the next referent.
pub open spec fn assign(m: Map<usize, u32>, next: int, nodes: Seq<usize>) -> (Map<usize, u32>, int)
    decreases nodes.len(),
{
    if nodes.len() == 0 {
        (m, next)
    } else {
        let (m0, n0) = assign(m, next, nodes.drop_last());
        let x = nodes.last();
        if m0.contains_key(x) {
            (m0, n0)
        } else {
            (m0.insert(x, n0 as u32), n0 + 1)
        }
    }
}

/// Visiting `a` then `b` assigns as visiting `a + b`.
pub proof fn lemma_assign_concat(m: Map<usize, u32>, next: int, a: Seq<usize>, b: Seq<usize>)
    ensures
        assign(m, next, a + b) == assign(assign(m, next, a).0, assign(m, next, a).1, b),
    decreases b.len(),
{
    if b.len() == 0 {
        assert(a + b =~= a);
    } else {
        lemma_assign_concat(m, next, a, b.drop_last());
        assert((a + b).drop_last() =~= a + b.drop_last());
        assert((a + b).last() == b.last());
    }
}

} // verus!

verus! {

/// Visiting distinct nodes from an empty assignment numbers them by their
/// position: the node at position `k` gets referent `k`.
pub proof fn lemma_assign_distinct(nodes: Seq<usize>)
    requires
        nodes.no_duplicates(),
        nodes.len() <= u32::MAX,
    ensures
        assign(Map::empty(), 0, nodes).1 == nodes.len(),
        forall|k: int|
            0 <= k < nodes.len() ==> assign(Map::empty(), 0, nodes).0.contains_key(#[trigger] nodes[k])
                && assign(Map::empty(), 0, nodes).0[nodes[k]] == k,
        forall|x: usize| assign(Map::empty(), 0, nodes).0.contains_key(x) ==> nodes.contains(x),
    decreases nodes.len(),
{
    if nodes.len() > 0 {
        let init = nodes.drop_last();
        assert(init.no_duplicates());
        lemma_assign_distinct(init);
        let x = nodes.last();
        assert(!init.contains(x)) by {
            if init.contains(x) {
                let w = choose|w: int| 0 <= w < init.len() && init[w] == x;
                assert(nodes[w] == nodes[nodes.len() - 1]);
            }
        }
        assert forall|k: int| 0 <= k < nodes.len() implies assign(Map::empty(), 0, nodes).0.contains_key(
            #[trigger] nodes[k],
        ) && assign(Map::empty(), 0, nodes).0[nodes[k]] == k by {
            if k < nodes.len() - 1 {
                assert(nodes[k] == init[k]);
            }
        }
        assert forall|y: usize| assign(Map::empty(), 0, nodes).0.contains_key(y) implies nodes.contains(y) by {
            if y != x {
                assert(assign(Map::empty(), 0, init).0.contains_key(y));
                assert(init.contains(y));
                let w = choose|w: int| 0 <= w < init.len() && init[w] == y;
                assert(nodes[w] == y);
            } else {
                assert(nodes[nodes.len() - 1] == y);
            }
        }
    }
}

/// Referents in pre-order: where the subtrees of `ids` hold each node once,
/// the document's referents number the nodes `0, 1, 2, ...` in the order of
/// the pre-order walk, and the nodes walked are exactly those numbered.
pub proof fn lemma_document_referents_preorder(tree: WeakDom, ids: Seq<usize>)
    requires
        forest_preorder(tree, ids).no_duplicates(),
        forest_preorder(tree, ids).len() <= u32::MAX,
    ensures
        forall|k: int|
            0 <= k < forest_preorder(tree, ids).len() ==> document_referents(tree, ids).contains_key(
                #[trigger] forest_preorder(tree, ids)[k],
            ) && document_referents(tree, ids)[forest_preorder(tree, ids)[k]] == k,
        forall|x: usize|
            document_referents(tree, ids).contains_key(x) ==> forest_preorder(tree, ids).contains(x),
{
    lemma_assign_distinct(forest_preorder(tree, ids));
}

} // verus!
