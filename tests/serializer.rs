use rbx_xml_encode::dom::WeakDom;
use rbx_xml_encode::reflection::{
    find_serialized_property_descriptor, DataType, MigrationOperation, PropertyDescriptor,
    PropertyMigration, ReflectionDatabase,
};
use rbx_xml_encode::serializer::{
    encode_internal, encode_property, EmitState, EncodeError, EncodeOptions,
    EncodePropertyBehavior, XmlEvent,
};
use rbx_xml_encode::variant::{Variant, VariantType};

fn descriptor(
    class: &str,
    property: &str,
    serialized: &str,
    data_type: DataType,
    migration: Option<PropertyMigration>,
) -> PropertyDescriptor {
    PropertyDescriptor {
        class_name: class.to_string(),
        property_name: property.to_string(),
        serialized_name: serialized.to_string(),
        data_type,
        migration,
    }
}

fn database(descriptors: Vec<PropertyDescriptor>) -> ReflectionDatabase {
    ReflectionDatabase { descriptors }
}

fn options(behavior: EncodePropertyBehavior, db: ReflectionDatabase) -> EncodeOptions {
    EncodeOptions::new().property_behavior(behavior).reflection_database(db)
}

fn single_node(class: &str, name: &str, props: Vec<(String, Variant)>) -> WeakDom {
    let mut dom = WeakDom::new();
    dom.insert(None, class.to_string(), name.to_string(), props);
    dom
}

fn property_names(events: &[XmlEvent]) -> Vec<String> {
    events
        .iter()
        .filter_map(|e| match e {
            XmlEvent::Property { name, .. } => Some(name.clone()),
            XmlEvent::SharedStringProperty { name, .. } => Some(name.clone()),
            _ => None,
        })
        .collect()
}

fn referents(events: &[XmlEvent]) -> Vec<(String, u32)> {
    events
        .iter()
        .filter_map(|e| match e {
            XmlEvent::StartItem { class, referent } => Some((class.clone(), *referent)),
            _ => None,
        })
        .collect()
}

#[test]
fn empty_tree_is_root_open_and_close() {
    let dom = WeakDom::new();
    let out = encode_internal(&dom, &vec![], EncodeOptions::new()).unwrap();
    assert_eq!(out.len(), 2);
    assert!(matches!(out[0], XmlEvent::StartDocument { version: 4 }));
    assert!(matches!(out[1], XmlEvent::EndDocument));
}

#[test]
fn properties_sorted_after_name() {
    let dom = single_node(
        "Folder",
        "Root",
        vec![
            ("Zeta".to_string(), Variant::Int32(1)),
            ("Alpha".to_string(), Variant::Int32(2)),
            ("Mid".to_string(), Variant::Bool(true)),
        ],
    );
    let opts = options(EncodePropertyBehavior::WriteUnknown, ReflectionDatabase::new());
    let out = encode_internal(&dom, &vec![0], opts).unwrap();
    assert_eq!(property_names(&out), vec!["Name", "Alpha", "Mid", "Zeta"]);
    match &out[3] {
        XmlEvent::Property { name, value: Variant::String(s) } => {
            assert_eq!(name, "Name");
            assert_eq!(s, "Root");
        }
        other => panic!("unexpected event {:?}", other),
    }
}

#[test]
fn ignore_unknown_omits_property() {
    let dom = single_node("Part", "P", vec![("Mystery".to_string(), Variant::Int32(5))]);
    let opts = options(EncodePropertyBehavior::IgnoreUnknown, ReflectionDatabase::new());
    let out = encode_internal(&dom, &vec![0], opts).unwrap();
    assert_eq!(property_names(&out), vec!["Name"]);
}

#[test]
fn write_unknown_writes_stored_value() {
    let dom = single_node("Part", "P", vec![("Mystery".to_string(), Variant::Int32(5))]);
    let opts = options(EncodePropertyBehavior::WriteUnknown, ReflectionDatabase::new());
    let out = encode_internal(&dom, &vec![0], opts).unwrap();
    assert_eq!(property_names(&out), vec!["Name", "Mystery"]);
    assert!(out.iter().any(|e| matches!(e, XmlEvent::Property { name, value: Variant::Int32(5) } if name == "Mystery")));
}

#[test]
fn error_on_unknown_fails() {
    let dom = single_node("Part", "P", vec![("Mystery".to_string(), Variant::Int32(5))]);
    let opts = options(EncodePropertyBehavior::ErrorOnUnknown, ReflectionDatabase::new());
    match encode_internal(&dom, &vec![0], opts) {
        Err(EncodeError::UnknownProperty { class_name, property_name }) => {
            assert_eq!(class_name, "Part");
            assert_eq!(property_name, "Mystery");
        }
        other => panic!("unexpected result {:?}", other),
    }
}

#[test]
fn no_reflection_skips_schema() {
    let db = database(vec![descriptor(
        "Part",
        "size",
        "Size",
        DataType::Value(VariantType::Int64),
        None,
    )]);
    let dom = single_node("Part", "P", vec![("size".to_string(), Variant::Int32(3))]);
    let out = encode_internal(&dom, &vec![0], options(EncodePropertyBehavior::NoReflection, db))
        .unwrap();
    assert_eq!(property_names(&out), vec!["Name", "size"]);
    assert!(out.iter().any(|e| matches!(e, XmlEvent::Property { value: Variant::Int32(3), .. })));
}

#[test]
fn resolved_property_is_renamed_and_converted() {
    let db = database(vec![descriptor(
        "Part",
        "size",
        "Size",
        DataType::Value(VariantType::Int64),
        None,
    )]);
    let dom = single_node("Part", "P", vec![("size".to_string(), Variant::Int32(3))]);
    let out = encode_internal(&dom, &vec![0], options(EncodePropertyBehavior::IgnoreUnknown, db))
        .unwrap();
    assert_eq!(property_names(&out), vec!["Name", "Size"]);
    assert!(out.iter().any(|e| matches!(e, XmlEvent::Property { value: Variant::Int64(3), .. })));
}

#[test]
fn enum_declared_type_converts_integer() {
    let db = database(vec![descriptor(
        "Part",
        "Material",
        "Material",
        DataType::Enum("Material".to_string()),
        None,
    )]);
    let r = encode_property(
        &options(EncodePropertyBehavior::IgnoreUnknown, db),
        &"Part".to_string(),
        &"Material".to_string(),
        &Variant::Int32(256),
    );
    match r {
        Ok(Some((name, Variant::Enum(256)))) => assert_eq!(name, "Material"),
        other => panic!("unexpected result {:?}", other),
    }
}

#[test]
fn migration_rewrites_name_and_value() {
    let migration = PropertyMigration {
        new_property_name: "Color3uint8".to_string(),
        operation: MigrationOperation::BrickColorToColor,
    };
    let db = database(vec![descriptor(
        "Part",
        "OldColor",
        "OldColor",
        DataType::Value(VariantType::BrickColor),
        Some(migration),
    )]);
    let dom = single_node("Part", "P", vec![("OldColor".to_string(), Variant::BrickColor(1))]);
    let out = encode_internal(&dom, &vec![0], options(EncodePropertyBehavior::IgnoreUnknown, db))
        .unwrap();
    assert_eq!(property_names(&out), vec!["Name", "Color3uint8"]);
    assert!(out.iter().any(|e| matches!(
        e,
        XmlEvent::Property { value: Variant::Color3uint8(242, 243, 243), .. }
    )));
}

#[test]
fn failed_migration_keeps_converted_value() {
    let migration = PropertyMigration {
        new_property_name: "Color3uint8".to_string(),
        operation: MigrationOperation::BrickColorToColor,
    };
    let db = database(vec![descriptor(
        "Part",
        "OldColor",
        "OldColor",
        DataType::Value(VariantType::BrickColor),
        Some(migration),
    )]);
    let r = encode_property(
        &options(EncodePropertyBehavior::IgnoreUnknown, db),
        &"Part".to_string(),
        &"OldColor".to_string(),
        &Variant::BrickColor(60000),
    );
    match r {
        Ok(Some((name, Variant::BrickColor(60000)))) => assert_eq!(name, "OldColor"),
        other => panic!("unexpected result {:?}", other),
    }
}

#[test]
fn inset_migration_maps_bool_to_enum() {
    let m = PropertyMigration {
        new_property_name: "ScreenInsets".to_string(),
        operation: MigrationOperation::IgnoreGuiInsetToScreenInsets,
    };
    assert!(matches!(m.perform(&Variant::Bool(true)), Some(Variant::Enum(1))));
    assert!(matches!(m.perform(&Variant::Bool(false)), Some(Variant::Enum(2))));
    assert!(m.perform(&Variant::Int32(1)).is_none());
}

#[test]
fn conversion_failure_aborts() {
    let db = database(vec![descriptor(
        "Part",
        "Anchored",
        "Anchored",
        DataType::Value(VariantType::Bool),
        None,
    )]);
    let mut dom = WeakDom::new();
    let root = dom.insert(None, "Model".to_string(), "M".to_string(), vec![]);
    dom.insert(
        Some(root),
        "Part".to_string(),
        "P".to_string(),
        vec![("Anchored".to_string(), Variant::String("yes".to_string()))],
    );
    match encode_internal(&dom, &vec![0], options(EncodePropertyBehavior::IgnoreUnknown, db)) {
        Err(EncodeError::UnsupportedPropertyConversion {
            class_name,
            property_name,
            expected_type,
            actual_type,
            ..
        }) => {
            assert_eq!(class_name, "Part");
            assert_eq!(property_name, "Anchored");
            assert_eq!(expected_type, VariantType::Bool);
            assert_eq!(actual_type, VariantType::String);
        }
        other => panic!("unexpected result {:?}", other),
    }
}

#[test]
fn int64_out_of_range_does_not_narrow() {
    let v = Variant::Int64(1 << 40);
    assert!(v.try_convert(VariantType::Int32).is_err());
    assert!(matches!(Variant::Int64(-7).try_convert(VariantType::Int32), Ok(Variant::Int32(-7))));
    assert!(Variant::Int32(-1).try_convert(VariantType::Enum).is_err());
}

#[test]
fn referents_follow_preorder() {
    let mut dom = WeakDom::new();
    let a = dom.insert(None, "A".to_string(), "a".to_string(), vec![]);
    let b = dom.insert(Some(a), "B".to_string(), "b".to_string(), vec![]);
    dom.insert(Some(b), "C".to_string(), "c".to_string(), vec![]);
    dom.insert(Some(a), "D".to_string(), "d".to_string(), vec![]);
    let e = dom.insert(None, "E".to_string(), "e".to_string(), vec![]);
    let out = encode_internal(&dom, &vec![e, a], EncodeOptions::new()).unwrap();
    assert_eq!(
        referents(&out),
        vec![
            ("E".to_string(), 0),
            ("A".to_string(), 1),
            ("B".to_string(), 2),
            ("C".to_string(), 3),
            ("D".to_string(), 4),
        ]
    );
}

#[test]
fn map_id_is_stable() {
    let mut state = EmitState::new(EncodeOptions::new());
    assert_eq!(state.map_id(7), 0);
    assert_eq!(state.map_id(3), 1);
    assert_eq!(state.map_id(7), 0);
    assert_eq!(state.next_referent, 2);
}

#[test]
fn shared_strings_written_once() {
    let blob = b"hello".to_vec();
    let mut dom = WeakDom::new();
    let root = dom.insert(
        None,
        "Model".to_string(),
        "M".to_string(),
        vec![("Data".to_string(), Variant::SharedString(blob.clone()))],
    );
    dom.insert(
        Some(root),
        "Part".to_string(),
        "P".to_string(),
        vec![("Data".to_string(), Variant::SharedString(blob.clone()))],
    );
    let opts = options(EncodePropertyBehavior::WriteUnknown, ReflectionDatabase::new());
    let out = encode_internal(&dom, &vec![root], opts).unwrap();
    let entries: Vec<(String, String)> = out
        .iter()
        .filter_map(|e| match e {
            XmlEvent::SharedString { md5, data } => Some((md5.clone(), data.clone())),
            _ => None,
        })
        .collect();
    assert_eq!(entries.len(), 1);
    assert_eq!(entries[0].1, "aGVsbG8=");
    assert_eq!(entries[0].0.len(), 24);
    assert_ne!(entries[0].0, entries[0].1);
    let refs: Vec<String> = out
        .iter()
        .filter_map(|e| match e {
            XmlEvent::SharedStringProperty { md5, .. } => Some(md5.clone()),
            _ => None,
        })
        .collect();
    assert_eq!(refs, vec![entries[0].0.clone(), entries[0].0.clone()]);
    assert!(matches!(out[out.len() - 2], XmlEvent::EndSharedStrings));
}

#[test]
fn distinct_payloads_sorted_by_hash() {
    let dom = single_node(
        "Model",
        "M",
        vec![
            ("A".to_string(), Variant::SharedString(b"one".to_vec())),
            ("B".to_string(), Variant::SharedString(b"two".to_vec())),
            ("C".to_string(), Variant::SharedString(b"three".to_vec())),
        ],
    );
    let opts = options(EncodePropertyBehavior::WriteUnknown, ReflectionDatabase::new());
    let out = encode_internal(&dom, &vec![0], opts).unwrap();
    let md5s: Vec<String> = out
        .iter()
        .filter_map(|e| match e {
            XmlEvent::SharedString { md5, .. } => Some(md5.clone()),
            _ => None,
        })
        .collect();
    assert_eq!(md5s.len(), 3);
    assert!(md5s[0] != md5s[1] && md5s[1] != md5s[2] && md5s[0] != md5s[2]);
}

#[test]
fn encoding_twice_is_identical() {
    let mut dom = WeakDom::new();
    let root = dom.insert(
        None,
        "Model".to_string(),
        "M".to_string(),
        vec![
            ("Zed".to_string(), Variant::Int32(1)),
            ("Blob".to_string(), Variant::SharedString(b"abc".to_vec())),
            ("Apple".to_string(), Variant::String("x".to_string())),
        ],
    );
    dom.insert(Some(root), "Part".to_string(), "P".to_string(), vec![]);
    let first = encode_internal(
        &dom,
        &vec![root],
        options(EncodePropertyBehavior::WriteUnknown, ReflectionDatabase::new()),
    )
    .unwrap();
    let second = encode_internal(
        &dom,
        &vec![root],
        options(EncodePropertyBehavior::WriteUnknown, ReflectionDatabase::new()),
    )
    .unwrap();
    assert_eq!(format!("{:?}", first), format!("{:?}", second));
}

#[test]
fn lookup_takes_first_matching_descriptor() {
    let db = database(vec![
        descriptor("Part", "a", "First", DataType::Value(VariantType::Int32), None),
        descriptor("Part", "a", "Second", DataType::Value(VariantType::Int32), None),
        descriptor("Model", "a", "Other", DataType::Value(VariantType::Int32), None),
    ]);
    assert_eq!(
        find_serialized_property_descriptor(&"Part".to_string(), &"a".to_string(), &db),
        Some(0)
    );
    assert_eq!(
        find_serialized_property_descriptor(&"Model".to_string(), &"a".to_string(), &db),
        Some(2)
    );
    assert_eq!(
        find_serialized_property_descriptor(&"Part".to_string(), &"b".to_string(), &db),
        None
    );
}

#[test]
fn default_options_ignore_unknown() {
    let opts = EncodeOptions::default();
    assert_eq!(opts.property_behavior, EncodePropertyBehavior::IgnoreUnknown);
    assert!(opts.database.descriptors.is_empty());
    assert!(opts.use_reflection());
    let opts = opts.property_behavior(EncodePropertyBehavior::NoReflection);
    assert!(!opts.use_reflection());
}

#[test]
fn add_shared_string_deduplicates() {
    let mut state = EmitState::new(EncodeOptions::new());
    state.add_shared_string(b"payload".to_vec());
    state.add_shared_string(b"payload".to_vec());
    state.add_shared_string(b"other".to_vec());
    let entries = &state.shared_strings_to_emit.entries;
    assert_eq!(entries.len(), 2);
    assert!(entries[0].0 < entries[1].0);
    assert_eq!(entries[0].0.len(), 32);
}

#[test]
fn node_without_properties_has_only_name() {
    let dom = single_node("Folder", "Empty", vec![]);
    let out = encode_internal(&dom, &vec![0], EncodeOptions::new()).unwrap();
    assert_eq!(out.len(), 7);
    assert!(matches!(out[1], XmlEvent::StartItem { referent: 0, .. }));
    assert!(matches!(out[2], XmlEvent::StartProperties));
    assert!(matches!(out[4], XmlEvent::EndProperties));
    assert!(matches!(out[5], XmlEvent::EndItem));
    assert!(matches!(out[6], XmlEvent::EndDocument));
}

#[test]
fn first_failure_in_walk_order_is_reported() {
    let mut dom = WeakDom::new();
    let root = dom.insert(
        None,
        "Model".to_string(),
        "M".to_string(),
        vec![
            ("Zulu".to_string(), Variant::Int32(1)),
            ("Bravo".to_string(), Variant::Int32(2)),
        ],
    );
    dom.insert(
        Some(root),
        "Part".to_string(),
        "P".to_string(),
        vec![("Alpha".to_string(), Variant::Int32(3))],
    );
    let opts = options(EncodePropertyBehavior::ErrorOnUnknown, ReflectionDatabase::new());
    match encode_internal(&dom, &vec![root], opts) {
        Err(EncodeError::UnknownProperty { class_name, property_name }) => {
            assert_eq!(class_name, "Model");
            assert_eq!(property_name, "Bravo");
        }
        other => panic!("unexpected result {:?}", other),
    }
}

#[test]
fn ignored_shared_string_leaves_no_block() {
    let dom = single_node(
        "Model",
        "M",
        vec![("Blob".to_string(), Variant::SharedString(b"unused".to_vec()))],
    );
    let out = encode_internal(&dom, &vec![0], EncodeOptions::new()).unwrap();
    assert!(!out.iter().any(|e| matches!(
        e,
        XmlEvent::SharedString { .. } | XmlEvent::StartSharedStrings | XmlEvent::SharedStringProperty { .. }
    )));
}
