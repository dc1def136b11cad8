use nbt::{read_nbt, write_nbt, Entries, Tag};

#[test]
fn new_byte_tag() {
    let tag = Tag::new_byte("health", 20);
    match tag {
        Tag::Byte { name, value } => {
            assert_eq!(name.unwrap(), "health");
            assert_eq!(value, 20);
        }
        _ => panic!("Expected Byte tag"),
    }
}

#[test]
fn new_short_tag() {
    let tag = Tag::new_short("optLevel", 3);
    match tag {
        Tag::Short { name, value } => {
            assert_eq!(name.unwrap(), "optLevel");
            assert_eq!(value, 3);
        }
        _ => panic!("Expected Short tag"),
    }
}

#[test]
fn new_int_tag() {
    let tag = Tag::new_int("xPos", 100);
    match tag {
        Tag::Int { name, value } => {
            assert_eq!(name.unwrap(), "xPos");
            assert_eq!(value, 100);
        }
        _ => panic!("Expected Int tag"),
    }
}

#[test]
fn new_long_tag() {
    let tag = Tag::new_long("timestamp", 1_620_000_000_000);
    match tag {
        Tag::Long { name, value } => {
            assert_eq!(name.unwrap(), "timestamp");
            assert_eq!(value, 1_620_000_000_000);
        }
        _ => panic!("Expected Long tag"),
    }
}

#[test]
fn new_float_tag() {
    let tag = Tag::new_float("speed", 0.5f32.to_bits());
    match tag {
        Tag::Float { name, value } => {
            assert_eq!(name.unwrap(), "speed");
            assert!((f32::from_bits(value) - 0.5).abs() < f32::EPSILON);
        }
        _ => panic!("Expected Float tag"),
    }
}

#[test]
fn new_double_tag() {
    let tag = Tag::new_double("gravity", 9.81f64.to_bits());
    match tag {
        Tag::Double { name, value } => {
            assert_eq!(name.unwrap(), "gravity");
            assert!((f64::from_bits(value) - 9.81).abs() < f64::EPSILON);
        }
        _ => panic!("Expected Double tag"),
    }
}

#[test]
fn new_byte_array_tag() {
    let data = vec![1u8, 2, 3, 4];
    let tag = Tag::new_byte_array("blocks", data.clone());
    match tag {
        Tag::ByteArray { name, value } => {
            assert_eq!(name.unwrap(), "blocks");
            assert_eq!(value, data);
        }
        _ => panic!("Expected ByteArray tag"),
    }
}

#[test]
fn new_string_tag() {
    let tag = Tag::new_string("name", "Steve");
    match tag {
        Tag::String { name, value } => {
            assert_eq!(name.unwrap(), "name");
            assert_eq!(value, "Steve");
        }
        _ => panic!("Expected String tag"),
    }
}

#[test]
fn new_list_tag() {
    let elements = vec![Tag::new_int("", 1), Tag::new_int("", 2)];
    let tag = Tag::new_list("nums", 3, elements.clone());
    match tag {
        Tag::List {
            name,
            element_id,
            elements: elems,
        } => {
            assert_eq!(name.unwrap(), "nums");
            assert_eq!(element_id, 3);
            assert_eq!(elems, elements);
        }
        _ => panic!("Expected List tag"),
    }
}

#[test]
fn new_compound_tag() {
    let tag = Tag::new_compound("Level");
    match tag {
        Tag::Compound { name, entries } => {
            assert_eq!(name.unwrap(), "Level");
            assert!(entries.is_empty());
        }
        _ => panic!("Expected Compound tag"),
    }
}

#[test]
fn new_int_array_tag() {
    let data = vec![1i32, 2, 3];
    let tag = Tag::new_int_array("palette", data.clone());
    match tag {
        Tag::IntArray { name, value } => {
            assert_eq!(name.unwrap(), "palette");
            assert_eq!(value, data);
        }
        _ => panic!("Expected IntArray tag"),
    }
}

#[test]
fn new_long_array_tag() {
    let data = vec![100i64, 200];
    let tag = Tag::new_long_array("timestamps", data.clone());
    match tag {
        Tag::LongArray { name, value } => {
            assert_eq!(name.unwrap(), "timestamps");
            assert_eq!(value, data);
        }
        _ => panic!("Expected LongArray tag"),
    }
}

#[test]
fn roundtrip_compound() {
    let mut root = Tag::new_compound("Test");
    root.insert("value".to_string(), Tag::new_int("value", 42));

    let mut buf = Vec::new();
    write_nbt(&root, &mut buf).unwrap();

    let decoded = read_nbt(&buf[..]).unwrap();
    assert_eq!(decoded, root);
}

#[test]
fn id_of_every_kind() {
    let tags = vec![
        Tag::End,
        Tag::new_byte("a", 0),
        Tag::new_short("a", 0),
        Tag::new_int("a", 0),
        Tag::new_long("a", 0),
        Tag::new_float("a", 0),
        Tag::new_double("a", 0),
        Tag::new_byte_array("a", vec![]),
        Tag::new_string("a", ""),
        Tag::new_list("a", 1, vec![]),
        Tag::new_compound("a"),
        Tag::new_int_array("a", vec![]),
        Tag::new_long_array("a", vec![]),
    ];
    for (i, tag) in tags.iter().enumerate() {
        assert_eq!(tag.id() as usize, i);
    }
}

#[test]
fn name_is_absent_on_end_and_on_unnamed_tags() {
    assert_eq!(Tag::End.name(), None);
    assert_eq!(Tag::Int { name: None, value: 1 }.name(), None);
    assert_eq!(Tag::new_int("x", 1).name(), Some("x"));
    assert_eq!(Tag::new_compound("").name(), Some(""));
}

#[test]
fn insert_overwrites_and_keeps_the_first_place() {
    let mut root = Tag::new_compound("root");
    root.insert("a".to_string(), Tag::new_int("a", 1));
    root.insert("b".to_string(), Tag::new_int("b", 2));
    root.insert("a".to_string(), Tag::new_int("a", 3));
    assert_eq!(root.get("a"), Some(&Tag::new_int("a", 3)));
    assert_eq!(root.get("b"), Some(&Tag::new_int("b", 2)));
    assert_eq!(root.get("c"), None);
    let Tag::Compound { entries, .. } = root else {
        panic!("not compound");
    };
    assert_eq!(entries.len(), 2);
    assert_eq!(entries.key_at(0), "a");
    assert_eq!(entries.key_at(1), "b");
    assert_eq!(entries.tag_at(0), &Tag::new_int("a", 3));
}

#[test]
fn get_on_other_kinds_is_absent() {
    assert_eq!(Tag::new_int("a", 1).get("a"), None);
    assert_eq!(Tag::new_list("a", 3, vec![]).get("a"), None);
    assert_eq!(Tag::End.get(""), None);
}

#[test]
fn push_appends_without_checking_the_kind() {
    let mut list = Tag::new_list("l", 3, vec![]);
    list.push(Tag::Int { name: None, value: 7 });
    list.push(Tag::Byte { name: None, value: 1 });
    let Tag::List { element_id, elements, .. } = list else {
        panic!("not list");
    };
    assert_eq!(element_id, 3);
    assert_eq!(elements.len(), 2);
    assert_eq!(elements[0], Tag::Int { name: None, value: 7 });
    assert_eq!(elements[1], Tag::Byte { name: None, value: 1 });
}

#[test]
fn equality_ignores_the_order_of_members() {
    let mut a = Entries::new();
    a.insert("x".to_string(), Tag::new_int("x", 1));
    a.insert("y".to_string(), Tag::new_string("y", "two"));
    let mut b = Entries::new();
    b.insert("y".to_string(), Tag::new_string("y", "two"));
    b.insert("x".to_string(), Tag::new_int("x", 1));
    assert_eq!(a, b);
    let ta = Tag::Compound { name: Some("c".to_string()), entries: a };
    let tb = Tag::Compound { name: Some("c".to_string()), entries: b };
    assert_eq!(ta, tb);
}

#[test]
fn equality_tells_values_names_and_kinds_apart() {
    assert_ne!(Tag::new_int("a", 1), Tag::new_int("a", 2));
    assert_ne!(Tag::new_int("a", 1), Tag::new_int("b", 1));
    assert_ne!(Tag::new_int("a", 1), Tag::new_long("a", 1));
    assert_ne!(Tag::new_int("a", 1), Tag::Int { name: None, value: 1 });
    assert_ne!(
        Tag::new_list("a", 3, vec![Tag::new_int("", 1)]),
        Tag::new_list("a", 3, vec![])
    );
    assert_ne!(Tag::new_list("a", 3, vec![]), Tag::new_list("a", 4, vec![]));
    let mut one = Tag::new_compound("c");
    one.insert("k".to_string(), Tag::new_int("k", 1));
    let mut other = Tag::new_compound("c");
    other.insert("j".to_string(), Tag::new_int("j", 1));
    assert_ne!(one, other);
    assert_ne!(one, Tag::new_compound("c"));
}

#[test]
fn clone_gives_an_equal_tree() {
    let mut inner = Tag::new_compound("inner");
    inner.insert("f".to_string(), Tag::new_float("f", 1.5f32.to_bits()));
    let mut root = Tag::new_compound("root");
    root.insert("inner".to_string(), inner);
    root.insert(
        "list".to_string(),
        Tag::new_list("list", 8, vec![Tag::String { name: None, value: "s".to_string() }]),
    );
    root.insert("bytes".to_string(), Tag::new_byte_array("bytes", vec![1, 2, 3]));
    let copy = root.clone();
    assert_eq!(copy, root);
}
