use nbt::{read_nbt, write_nbt, Entries, ErrorKind, NbtError, Reader, Tag, Writer};

fn sample_level_compound() -> Tag {
    let mut entries = Entries::new();
    entries.insert(
        "DataVersion".into(),
        Tag::Int {
            name: Some("DataVersion".into()),
            value: 3837,
        },
    );
    entries.insert(
        "LevelName".into(),
        Tag::String {
            name: Some("LevelName".into()),
            value: "test".into(),
        },
    );
    entries.insert(
        "GameType".into(),
        Tag::Int {
            name: Some("GameType".into()),
            value: 0,
        },
    );
    entries.insert(
        "Difficulty".into(),
        Tag::Byte {
            name: Some("Difficulty".into()),
            value: 2,
        },
    );
    entries.insert(
        "hardcore".into(),
        Tag::Byte {
            name: Some("hardcore".into()),
            value: 0,
        },
    );
    entries.insert(
        "allowCommands".into(),
        Tag::Byte {
            name: Some("allowCommands".into()),
            value: 1,
        },
    );
    entries.insert(
        "SpawnX".into(),
        Tag::Int {
            name: Some("SpawnX".into()),
            value: 0,
        },
    );
    entries.insert(
        "SpawnY".into(),
        Tag::Int {
            name: Some("SpawnY".into()),
            value: 64,
        },
    );
    entries.insert(
        "SpawnZ".into(),
        Tag::Int {
            name: Some("SpawnZ".into()),
            value: 0,
        },
    );

    let list = Tag::List {
        name: Some("TestList".into()),
        element_id: 3,
        elements: vec![
            Tag::Int {
                name: None,
                value: 1,
            },
            Tag::Int {
                name: None,
                value: 2,
            },
            Tag::Int {
                name: None,
                value: 3,
            },
        ],
    };
    entries.insert("TestList".into(), list);
    Tag::Compound {
        name: Some("Data".into()),
        entries,
    }
}

fn write_uncompressed(tag: &Tag) -> Vec<u8> {
    let mut w = Writer::new(Vec::new());
    w.write_tag(tag).unwrap();
    w.into_inner()
}

fn read_uncompressed(bytes: &[u8]) -> Tag {
    let mut r = Reader::new(bytes);
    r.read_tag().unwrap()
}

fn compound_of(name: &str, members: Vec<(&str, Tag)>) -> Tag {
    let mut entries = Entries::new();
    for (key, tag) in members {
        entries.insert(key.to_string(), tag);
    }
    Tag::Compound {
        name: Some(name.to_string()),
        entries,
    }
}

#[test]
fn roundtrip_uncompressed() {
    let root = sample_level_compound();
    let bytes = write_uncompressed(&root);
    let back = read_uncompressed(&bytes);

    match back {
        Tag::Compound { name, .. } => assert_eq!(name.as_deref(), Some("Data")),
        _ => panic!("root not a Compound"),
    }
}

#[test]
fn list_elements_have_no_names() {
    let root = sample_level_compound();
    let bytes = write_uncompressed(&root);
    let back = read_uncompressed(&bytes);
    let Tag::Compound { entries, .. } = back else {
        panic!("not compound");
    };
    let Tag::List {
        element_id,
        elements,
        ..
    } = entries.get("TestList").expect("missing TestList")
    else {
        panic!("not list");
    };
    assert_eq!(*element_id, 3);
    assert_eq!(elements.len(), 3);
    for e in elements {
        match e {
            Tag::Int { name, value } => {
                assert!(name.is_none());
                assert!(*value >= 1 && *value <= 3);
            }
            _ => panic!("list element not Int"),
        }
    }
}

#[test]
fn string_length_u16_boundary() {
    let s = "a".repeat(300);
    let tag = Tag::String {
        name: Some("S".into()),
        value: s.clone(),
    };
    let root = Tag::Compound {
        name: Some("Data".into()),
        entries: {
            let mut m = Entries::new();
            m.insert("S".into(), tag);
            m
        },
    };
    let bytes = write_uncompressed(&root);
    let back = read_uncompressed(&bytes);
    let Tag::Compound { entries, .. } = back else {
        panic!("not compound");
    };
    let Tag::String { value, .. } = entries.get("S").expect("missing S") else {
        panic!("not string");
    };
    assert_eq!(value, &s);
}

#[test]
fn error_on_unknown_tag_id() {
    let mut raw = Vec::new();
    raw.push(99u8);
    raw.extend_from_slice(&0u16.to_be_bytes());
    let mut r = Reader::new(&raw);
    let err = r.read_tag().err().expect("should error");
    assert_eq!(err.kind(), ErrorKind::InvalidData);
}

#[test]
fn compound_end_marker_required() {
    let mut raw = Vec::new();
    raw.push(10u8);
    raw.extend_from_slice(&(4u16.to_be_bytes()));
    raw.extend_from_slice(b"Data");

    let mut r = Reader::new(&raw);
    let res = r.read_tag();
    assert!(res.is_err(), "Reader should fail on missing TAG_End");
}

#[test]
fn float_and_double_are_be() {
    let mut entries = Entries::new();
    entries.insert(
        "F".into(),
        Tag::Float {
            name: Some("F".into()),
            value: 1234.5f32.to_bits(),
        },
    );
    entries.insert(
        "D".into(),
        Tag::Double {
            name: Some("D".into()),
            value: (-0.25f64).to_bits(),
        },
    );
    let root = Tag::Compound {
        name: Some("Data".into()),
        entries,
    };

    let bytes = write_uncompressed(&root);

    let back = read_uncompressed(&bytes);
    let Tag::Compound { entries, .. } = back else {
        panic!("not compound");
    };
    let Tag::Float { value: f, .. } = entries.get("F").unwrap() else {
        panic!("F missing");
    };
    let Tag::Double { value: d, .. } = entries.get("D").unwrap() else {
        panic!("D missing");
    };
    assert!((f32::from_bits(*f) - 1234.5).abs() < 1e-4);
    assert!((f64::from_bits(*d) + 0.25).abs() < 1e-12);
}

#[test]
fn int_long_arrays_roundtrip() {
    let ia = (0..16).map(|i| i - 8).collect::<Vec<_>>();
    let la = (0..8).map(|i| (i as i64) * (1 << 33)).collect::<Vec<_>>();
    let mut entries = Entries::new();
    entries.insert(
        "IA".into(),
        Tag::IntArray {
            name: Some("IA".into()),
            value: ia.clone(),
        },
    );
    entries.insert(
        "LA".into(),
        Tag::LongArray {
            name: Some("LA".into()),
            value: la.clone(),
        },
    );
    let root = Tag::Compound {
        name: Some("Data".into()),
        entries,
    };

    let bytes = write_uncompressed(&root);
    let back = read_uncompressed(&bytes);

    let Tag::Compound { entries, .. } = back else {
        panic!("not compound");
    };
    let Tag::IntArray { value: ia2, .. } = entries.get("IA").unwrap() else {
        panic!("IA");
    };
    let Tag::LongArray { value: la2, .. } = entries.get("LA").unwrap() else {
        panic!("LA");
    };
    assert_eq!(ia2, &ia);
    assert_eq!(la2, &la);
}

// ---- exact bytes -------------------------------------------------------

#[test]
fn end_tag_is_one_zero_byte() {
    assert_eq!(write_uncompressed(&Tag::End), vec![0u8]);
    assert_eq!(read_uncompressed(&[0u8]), Tag::End);
}

#[test]
fn end_tag_leaves_what_follows_unread() {
    let bytes = [0u8, 1, 0, 0, 5];
    let mut r = Reader::new(&bytes);
    assert_eq!(r.read_tag().unwrap(), Tag::End);
    assert_eq!(r.read_tag().unwrap(), Tag::new_byte("", 5));
    assert_eq!(r.read_tag().err(), Some(NbtError::UnexpectedEof));
}

#[test]
fn byte_tag_bytes() {
    let bytes = write_uncompressed(&Tag::new_byte("ab", -2));
    assert_eq!(bytes, vec![1, 0, 2, b'a', b'b', 0xfe]);
    assert_eq!(read_uncompressed(&bytes), Tag::new_byte("ab", -2));
}

#[test]
fn short_tag_bytes() {
    let bytes = write_uncompressed(&Tag::new_short("s", -2));
    assert_eq!(bytes, vec![2, 0, 1, b's', 0xff, 0xfe]);
    assert_eq!(write_uncompressed(&Tag::new_short("", 0x1234)), vec![2, 0, 0, 0x12, 0x34]);
    assert_eq!(
        write_uncompressed(&Tag::new_short("", i16::MIN)),
        vec![2, 0, 0, 0x80, 0x00]
    );
}

#[test]
fn int_tag_bytes() {
    assert_eq!(
        write_uncompressed(&Tag::new_int("", 0x0102_0304)),
        vec![3, 0, 0, 1, 2, 3, 4]
    );
    assert_eq!(
        write_uncompressed(&Tag::new_int("", -1)),
        vec![3, 0, 0, 0xff, 0xff, 0xff, 0xff]
    );
    assert_eq!(
        write_uncompressed(&Tag::new_int("", i32::MIN)),
        vec![3, 0, 0, 0x80, 0, 0, 0]
    );
}

#[test]
fn long_tag_bytes() {
    assert_eq!(
        write_uncompressed(&Tag::new_long("", 0x0102_0304_0506_0708)),
        vec![4, 0, 0, 1, 2, 3, 4, 5, 6, 7, 8]
    );
    assert_eq!(
        write_uncompressed(&Tag::new_long("", -2)),
        vec![4, 0, 0, 0xff, 0xff, 0xff, 0xff, 0xff, 0xff, 0xff, 0xfe]
    );
    assert_eq!(
        write_uncompressed(&Tag::new_long("", i64::MIN)),
        vec![4, 0, 0, 0x80, 0, 0, 0, 0, 0, 0, 0]
    );
}

#[test]
fn float_bytes_start_with_0x44() {
    let bytes = write_uncompressed(&Tag::new_float("", 1234.5f32.to_bits()));
    assert_eq!(bytes, vec![5, 0, 0, 0x44, 0x9a, 0x50, 0x00]);
    let Tag::Float { value, .. } = read_uncompressed(&bytes) else {
        panic!("not float");
    };
    assert_eq!(f32::from_bits(value), 1234.5);
}

#[test]
fn double_minus_a_quarter_comes_back_exactly() {
    let bytes = write_uncompressed(&Tag::new_double("", (-0.25f64).to_bits()));
    assert_eq!(bytes, vec![6, 0, 0, 0xbf, 0xd0, 0, 0, 0, 0, 0, 0]);
    let Tag::Double { value, .. } = read_uncompressed(&bytes) else {
        panic!("not double");
    };
    assert_eq!(f64::from_bits(value), -0.25);
}

#[test]
fn nan_bits_are_kept() {
    let nan = 0x7fc0_1234u32;
    let bytes = write_uncompressed(&Tag::new_float("n", nan));
    assert_eq!(read_uncompressed(&bytes), Tag::new_float("n", nan));
}

#[test]
fn byte_array_bytes() {
    let bytes = write_uncompressed(&Tag::new_byte_array("", vec![9, 8, 7]));
    assert_eq!(bytes, vec![7, 0, 0, 0, 0, 0, 3, 9, 8, 7]);
    assert_eq!(read_uncompressed(&bytes), Tag::new_byte_array("", vec![9, 8, 7]));
}

#[test]
fn string_bytes_count_bytes_not_characters() {
    let bytes = write_uncompressed(&Tag::new_string("n", "h\u{e9}"));
    assert_eq!(bytes, vec![8, 0, 1, b'n', 0, 3, b'h', 0xc3, 0xa9]);
    assert_eq!(read_uncompressed(&bytes), Tag::new_string("n", "h\u{e9}"));
}

#[test]
fn list_bytes_omit_ids_and_names() {
    let list = Tag::new_list(
        "l",
        2,
        vec![Tag::new_short("ignored", 1), Tag::new_short("too", 2)],
    );
    let bytes = write_uncompressed(&list);
    assert_eq!(bytes, vec![9, 0, 1, b'l', 2, 0, 0, 0, 2, 0, 1, 0, 2]);
    let back = read_uncompressed(&bytes);
    assert_eq!(
        back,
        Tag::new_list(
            "l",
            2,
            vec![
                Tag::Short { name: None, value: 1 },
                Tag::Short { name: None, value: 2 }
            ]
        )
    );
}

#[test]
fn compound_bytes_use_keys_and_end_with_zero() {
    let root = compound_of(
        "c",
        vec![("a", Tag::new_byte("a", 1)), ("b", Tag::new_short("b", 2))],
    );
    let bytes = write_uncompressed(&root);
    assert_eq!(
        bytes,
        vec![10, 0, 1, b'c', 1, 0, 1, b'a', 1, 2, 0, 1, b'b', 0, 2, 0]
    );
    assert_eq!(read_uncompressed(&bytes), root);
}

#[test]
fn compound_member_is_written_under_its_key() {
    let root = compound_of("c", vec![("key", Tag::new_byte("other", 1))]);
    let bytes = write_uncompressed(&root);
    assert_eq!(bytes, vec![10, 0, 1, b'c', 1, 0, 3, b'k', b'e', b'y', 1, 0]);
    let back = read_uncompressed(&bytes);
    assert_eq!(back.get("key"), Some(&Tag::new_byte("key", 1)));
}

#[test]
fn int_array_bytes() {
    let bytes = write_uncompressed(&Tag::new_int_array("", vec![1, -1]));
    assert_eq!(
        bytes,
        vec![11, 0, 0, 0, 0, 0, 2, 0, 0, 0, 1, 0xff, 0xff, 0xff, 0xff]
    );
    assert_eq!(read_uncompressed(&bytes), Tag::new_int_array("", vec![1, -1]));
}

#[test]
fn long_array_bytes() {
    let bytes = write_uncompressed(&Tag::new_long_array("", vec![1 << 33]));
    assert_eq!(
        bytes,
        vec![12, 0, 0, 0, 0, 0, 1, 0, 0, 0, 2, 0, 0, 0, 0]
    );
    assert_eq!(read_uncompressed(&bytes), Tag::new_long_array("", vec![1 << 33]));
}

#[test]
fn unnamed_tag_is_written_with_the_empty_name() {
    let bytes = write_uncompressed(&Tag::Byte { name: None, value: 3 });
    assert_eq!(bytes, vec![1, 0, 0, 3]);
    assert_eq!(read_uncompressed(&bytes), Tag::new_byte("", 3));
}

#[test]
fn write_nbt_appends_to_what_is_there() {
    let mut buf = vec![0xaa, 0xbb];
    write_nbt(&Tag::new_byte("", 1), &mut buf).unwrap();
    assert_eq!(buf, vec![0xaa, 0xbb, 1, 0, 0, 1]);
}

// ---- round trips ---------------------------------------------------------

#[test]
fn roundtrip_of_every_kind_nested() {
    let inner = compound_of(
        "inner",
        vec![
            ("b", Tag::new_byte("b", i8::MIN)),
            ("s", Tag::new_short("s", i16::MAX)),
            ("i", Tag::new_int("i", i32::MIN)),
            ("l", Tag::new_long("l", i64::MAX)),
            ("f", Tag::new_float("f", f32::MAX.to_bits())),
            ("d", Tag::new_double("d", f64::MIN_POSITIVE.to_bits())),
            ("ba", Tag::new_byte_array("ba", vec![0, 255, 128])),
            ("st", Tag::new_string("st", "\u{1f600} and more")),
            ("ia", Tag::new_int_array("ia", vec![i32::MIN, 0, i32::MAX])),
            ("la", Tag::new_long_array("la", vec![i64::MIN, 0, i64::MAX])),
        ],
    );
    let list_of_compounds = Tag::new_list(
        "lc",
        10,
        vec![
            Tag::Compound { name: None, entries: Entries::new() },
            {
                let mut e = Entries::new();
                e.insert("x".to_string(), Tag::new_int("x", 1));
                Tag::Compound { name: None, entries: e }
            },
        ],
    );
    let list_of_lists = Tag::new_list(
        "ll",
        9,
        vec![
            Tag::List { name: None, element_id: 1, elements: vec![] },
            Tag::List {
                name: None,
                element_id: 8,
                elements: vec![Tag::String { name: None, value: "deep".to_string() }],
            },
        ],
    );
    let root = compound_of(
        "root",
        vec![
            ("inner", inner),
            ("lc", list_of_compounds),
            ("ll", list_of_lists),
            ("empty", Tag::new_list("empty", 0, vec![])),
        ],
    );
    let bytes = write_uncompressed(&root);
    let back = read_nbt(&bytes).unwrap();
    assert_eq!(back, root);
    assert_eq!(write_uncompressed(&back), bytes);
}

#[test]
fn roundtrip_keeps_the_order_of_members() {
    let root = compound_of(
        "r",
        vec![
            ("z", Tag::new_int("z", 1)),
            ("a", Tag::new_int("a", 2)),
            ("m", Tag::new_int("m", 3)),
        ],
    );
    let back = read_uncompressed(&write_uncompressed(&root));
    let Tag::Compound { entries, .. } = back else {
        panic!("not compound");
    };
    assert_eq!(entries.key_at(0), "z");
    assert_eq!(entries.key_at(1), "a");
    assert_eq!(entries.key_at(2), "m");
}

#[test]
fn string_of_the_longest_length_round_trips() {
    let s = "b".repeat(32767);
    let tag = Tag::new_string("s", &s);
    let bytes = write_uncompressed(&tag);
    assert_eq!(&bytes[..6], &[8, 0, 1, b's', 0x7f, 0xff]);
    assert_eq!(read_uncompressed(&bytes), tag);
}

#[test]
fn string_over_the_longest_length_keeps_the_low_bits_of_its_length() {
    let s = "c".repeat(32768);
    let bytes = write_uncompressed(&Tag::new_string("", &s));
    assert_eq!(&bytes[..5], &[8, 0, 0, 0x80, 0x00]);
    assert_eq!(bytes.len(), 5 + 32768);
    assert_eq!(read_nbt(&bytes).err(), Some(NbtError::UnexpectedEof));
}

#[test]
fn later_member_with_the_same_key_stays() {
    let bytes = [10, 0, 0, 1, 0, 1, b'k', 1, 3, 0, 1, b'k', 0, 0, 0, 9, 0];
    let back = read_uncompressed(&bytes);
    let Tag::Compound { entries, .. } = &back else {
        panic!("not compound");
    };
    assert_eq!(entries.len(), 1);
    assert_eq!(back.get("k"), Some(&Tag::new_int("k", 9)));
}

// ---- failures --------------------------------------------------------------

#[test]
fn empty_input_is_truncated() {
    assert_eq!(read_nbt(&[]).err(), Some(NbtError::UnexpectedEof));
    assert_eq!(NbtError::UnexpectedEof.kind(), ErrorKind::UnexpectedEof);
}

#[test]
fn unknown_kind_is_reported_with_its_byte() {
    assert_eq!(read_nbt(&[99, 0, 0]).err(), Some(NbtError::UnknownTagId(99)));
    assert_eq!(read_nbt(&[13, 0, 0, 1]).err(), Some(NbtError::UnknownTagId(13)));
    assert_eq!(NbtError::UnknownTagId(99).kind(), ErrorKind::InvalidData);
}

#[test]
fn unknown_kind_without_a_name_is_truncated() {
    assert_eq!(read_nbt(&[99]).err(), Some(NbtError::UnexpectedEof));
}

#[test]
fn unknown_kind_inside_a_compound_and_a_list() {
    assert_eq!(
        read_nbt(&[10, 0, 0, 77, 0, 0]).err(),
        Some(NbtError::UnknownTagId(77))
    );
    assert_eq!(
        read_nbt(&[9, 0, 0, 0, 0, 0, 0, 1]).err(),
        Some(NbtError::UnknownTagId(0))
    );
    assert_eq!(
        read_nbt(&[9, 0, 0, 0, 0, 0, 0, 0]).unwrap(),
        Tag::new_list("", 0, vec![])
    );
}

#[test]
fn invalid_utf8_is_invalid_data() {
    assert_eq!(read_nbt(&[1, 0, 1, 0xff, 0]).err(), Some(NbtError::InvalidUtf8));
    assert_eq!(read_nbt(&[8, 0, 0, 0, 2, 0xc3, 0x28]).err(), Some(NbtError::InvalidUtf8));
    assert_eq!(NbtError::InvalidUtf8.kind(), ErrorKind::InvalidData);
}

#[test]
fn truncation_is_found_in_every_field() {
    let root = compound_of(
        "root",
        vec![
            ("s", Tag::new_string("s", "text")),
            ("l", Tag::new_list("l", 4, vec![Tag::Long { name: None, value: 5 }])),
            ("ia", Tag::new_int_array("ia", vec![1, 2])),
            ("la", Tag::new_long_array("la", vec![3])),
            ("ba", Tag::new_byte_array("ba", vec![1, 2, 3])),
            ("d", Tag::new_double("d", 7)),
        ],
    );
    let bytes = write_uncompressed(&root);
    for cut in 0..bytes.len() {
        assert_eq!(
            read_nbt(&bytes[..cut]).err(),
            Some(NbtError::UnexpectedEof),
            "cut at {}",
            cut
        );
    }
    assert_eq!(read_nbt(&bytes).unwrap(), root);
}

#[test]
fn missing_end_marker_after_members_is_truncated() {
    let bytes = [10, 0, 1, b'c', 1, 0, 1, b'a', 1];
    assert_eq!(read_nbt(&bytes).err(), Some(NbtError::UnexpectedEof));
}

#[test]
fn negative_lengths_are_truncated_input() {
    assert_eq!(
        read_nbt(&[7, 0, 0, 0xff, 0xff, 0xff, 0xff, 1, 2]).err(),
        Some(NbtError::UnexpectedEof)
    );
    assert_eq!(
        read_nbt(&[8, 0, 0, 0x80, 0x00, 1, 2]).err(),
        Some(NbtError::UnexpectedEof)
    );
    assert_eq!(
        read_nbt(&[9, 0, 0, 1, 0x80, 0, 0, 0, 1, 2]).err(),
        Some(NbtError::UnexpectedEof)
    );
    assert_eq!(
        read_nbt(&[11, 0, 0, 0xff, 0xff, 0xff, 0xfe, 0, 0, 0, 1]).err(),
        Some(NbtError::UnexpectedEof)
    );
    assert_eq!(
        read_nbt(&[12, 0, 0, 0x80, 0, 0, 1, 0, 0, 0, 0, 0, 0, 0, 1]).err(),
        Some(NbtError::UnexpectedEof)
    );
    assert_eq!(read_nbt(&[1, 0xff, 0xff, 1]).err(), Some(NbtError::UnexpectedEof));
}

#[test]
fn announced_count_beyond_the_input_is_truncated() {
    assert_eq!(
        read_nbt(&[11, 0, 0, 0x7f, 0xff, 0xff, 0xff, 0, 0, 0, 1]).err(),
        Some(NbtError::UnexpectedEof)
    );
    assert_eq!(
        read_nbt(&[9, 0, 0, 1, 0x7f, 0xff, 0xff, 0xff, 1, 2]).err(),
        Some(NbtError::UnexpectedEof)
    );
}

// ---- the reader and the writer, field by field -----------------------------

#[test]
fn reader_reads_fields_in_order() {
    let bytes = [
        0x7f, 0x80, 0x12, 0x34, 0xff, 0xff, 0xff, 0xfe, 0, 0, 0, 0, 0, 0, 1, 0, 0, 2, b'o', b'k',
        0x3f, 0x80, 0, 0, 0x40, 0, 0, 0, 0, 0, 0, 0,
    ];
    let mut r = Reader::new(&bytes);
    assert_eq!(r.read_u8(), Ok(0x7f));
    assert_eq!(r.read_i8(), Ok(-128));
    assert_eq!(r.read_i16(), Ok(0x1234));
    assert_eq!(r.read_i32(), Ok(-2));
    assert_eq!(r.read_i64(), Ok(256));
    assert_eq!(r.read_string(), Ok("ok".to_string()));
    assert_eq!(r.read_f32().map(f32::from_bits), Ok(1.0));
    assert_eq!(r.read_f64().map(f64::from_bits), Ok(2.0));
    assert_eq!(r.read_u8(), Err(NbtError::UnexpectedEof));
}

#[test]
fn reader_fails_on_short_fields() {
    assert_eq!(Reader::new(&[1]).read_i16(), Err(NbtError::UnexpectedEof));
    assert_eq!(Reader::new(&[1, 2, 3]).read_i32(), Err(NbtError::UnexpectedEof));
    assert_eq!(Reader::new(&[1, 2, 3, 4, 5, 6, 7]).read_i64(), Err(NbtError::UnexpectedEof));
    assert_eq!(Reader::new(&[0, 3, b'a', b'b']).read_string(), Err(NbtError::UnexpectedEof));
    assert_eq!(Reader::new(&[]).read_i8(), Err(NbtError::UnexpectedEof));
}

#[test]
fn read_payload_gives_the_name_it_was_handed() {
    let mut r = Reader::new(&[0, 0, 0, 5]);
    assert_eq!(
        r.read_payload(3, Some("given".to_string())),
        Ok(Tag::new_int("given", 5))
    );
    let mut r = Reader::new(&[0, 0, 0, 5]);
    assert_eq!(r.read_payload(3, None), Ok(Tag::Int { name: None, value: 5 }));
    let mut r = Reader::new(&[0, 0, 0, 5]);
    assert_eq!(r.read_payload(0, None), Err(NbtError::UnknownTagId(0)));
}

#[test]
fn writer_writes_fields_in_order() {
    let mut w = Writer::new(vec![0xee]);
    w.write_u8(0x7f).unwrap();
    w.write_i8(-128).unwrap();
    w.write_i16(0x1234).unwrap();
    w.write_i32(-2).unwrap();
    w.write_i64(256).unwrap();
    w.write_string("ok").unwrap();
    w.write_f32(1.0f32.to_bits()).unwrap();
    w.write_f64(2.0f64.to_bits()).unwrap();
    assert_eq!(
        w.into_inner(),
        vec![
            0xee, 0x7f, 0x80, 0x12, 0x34, 0xff, 0xff, 0xff, 0xfe, 0, 0, 0, 0, 0, 0, 1, 0, 0, 2,
            b'o', b'k', 0x3f, 0x80, 0, 0, 0x40, 0, 0, 0, 0, 0, 0, 0
        ]
    );
}

#[test]
fn write_payload_writes_no_kind_and_no_name() {
    let mut w = Writer::new(Vec::new());
    w.write_payload(&Tag::new_short("name", 0x0102)).unwrap();
    w.write_payload(&Tag::End).unwrap();
    assert_eq!(w.into_inner(), vec![1, 2]);
}

// ---- what is read depends on no byte behind it -------------------------------

#[test]
fn what_follows_a_tag_does_not_change_it() {
    let root = sample_level_compound();
    let bytes = write_uncompressed(&root);
    let mut longer = bytes.clone();
    longer.extend_from_slice(&[0xde, 0xad, 0xbe, 0xef, 10, 0]);
    let mut r = Reader::new(&longer);
    assert_eq!(r.read_tag().unwrap(), root);
    assert_eq!(r.consumed(), bytes.len());
}

#[test]
fn consumed_counts_the_bytes_of_each_read() {
    let bytes = [1, 0, 1, b'a', 7, 3, 0, 0, 0, 0, 0, 9];
    let mut r = Reader::new(&bytes);
    assert_eq!(r.consumed(), 0);
    assert_eq!(r.read_tag().unwrap(), Tag::new_byte("a", 7));
    assert_eq!(r.consumed(), 5);
    assert_eq!(r.read_tag().unwrap(), Tag::new_int("", 9));
    assert_eq!(r.consumed(), 12);
}

#[test]
fn what_was_read_is_written_back_as_it_was_read() {
    let bytes = [
        10, 0, 1, b'r', 9, 0, 1, b'l', 10, 0, 0, 0, 2, 1, 0, 1, b'x', 5, 0, 0, 8, 0, 1, b's', 0,
        2, b'h', b'i', 0,
    ];
    let tag = read_uncompressed(&bytes);
    assert_eq!(write_uncompressed(&tag), bytes.to_vec());
}
