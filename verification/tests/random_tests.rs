use nbt::{read_nbt, write_nbt, Entries, NbtError, Reader, Tag};

/// A small generator of numbers that gives the same run every time.
struct Numbers(u64);

impl Numbers {
    fn next(&mut self) -> u64 {
        self.0 = self
            .0
            .wrapping_mul(6364136223846793005)
            .wrapping_add(1442695040888963407);
        self.0 >> 11
    }

    fn below(&mut self, n: u64) -> u64 {
        self.next() % n
    }

    fn text(&mut self) -> String {
        let alphabet = ['a', 'Z', '0', ' ', '\u{e9}', '\u{4e2d}', '\u{1f600}', '_'];
        let len = self.below(6) as usize;
        (0..len)
            .map(|_| alphabet[self.below(alphabet.len() as u64) as usize])
            .collect()
    }
}

/// A tag of kind `id` with a payload chosen by `numbers`; lists and compounds
/// nest no deeper than `depth`.
fn tag_of_kind(numbers: &mut Numbers, id: u8, name: Option<String>, depth: u32) -> Tag {
    match id {
        1 => Tag::Byte { name, value: numbers.next() as i8 },
        2 => Tag::Short { name, value: numbers.next() as i16 },
        3 => Tag::Int { name, value: numbers.next() as i32 },
        4 => Tag::Long { name, value: (numbers.next() << 11 | numbers.next()) as i64 },
        5 => Tag::Float { name, value: numbers.next() as u32 },
        6 => Tag::Double { name, value: numbers.next() << 11 | numbers.next() },
        7 => {
            let len = numbers.below(5);
            Tag::ByteArray { name, value: (0..len).map(|_| numbers.next() as u8).collect() }
        }
        8 => Tag::String { name, value: numbers.text() },
        9 => {
            let element_id = if depth == 0 { 1 + numbers.below(8) as u8 } else { 1 + numbers.below(12) as u8 };
            let len = numbers.below(4);
            let elements = (0..len)
                .map(|_| tag_of_kind(numbers, element_id, None, depth.saturating_sub(1)))
                .collect();
            Tag::List { name, element_id, elements }
        }
        10 => {
            let mut entries = Entries::new();
            let len = numbers.below(4);
            for i in 0..len {
                let key = format!("{}{}", numbers.text(), i);
                let kind = if depth == 0 { 1 + numbers.below(8) as u8 } else { 1 + numbers.below(12) as u8 };
                let member = tag_of_kind(numbers, kind, Some(key.clone()), depth.saturating_sub(1));
                entries.insert(key, member);
            }
            Tag::Compound { name, entries }
        }
        11 => {
            let len = numbers.below(5);
            Tag::IntArray { name, value: (0..len).map(|_| numbers.next() as i32).collect() }
        }
        _ => {
            let len = numbers.below(5);
            Tag::LongArray {
                name,
                value: (0..len).map(|_| (numbers.next() << 11 | numbers.next()) as i64).collect(),
            }
        }
    }
}

#[test]
fn random_well_formed_trees_round_trip() {
    let mut numbers = Numbers(2024);
    for _ in 0..300 {
        let id = 1 + numbers.below(12) as u8;
        let name = numbers.text();
        let tag = tag_of_kind(&mut numbers, id, Some(name), 3);
        let mut bytes = Vec::new();
        write_nbt(&tag, &mut bytes).unwrap();
        let back = read_nbt(&bytes).unwrap();
        assert_eq!(back, tag);
        let mut again = Vec::new();
        write_nbt(&back, &mut again).unwrap();
        assert_eq!(again, bytes);
    }
}

#[test]
fn random_trees_cut_short_are_truncated() {
    let mut numbers = Numbers(7);
    for _ in 0..60 {
        let id = 1 + numbers.below(12) as u8;
        let name = numbers.text();
        let tag = tag_of_kind(&mut numbers, id, Some(name), 2);
        let mut bytes = Vec::new();
        write_nbt(&tag, &mut bytes).unwrap();
        for cut in 0..bytes.len() {
            assert_eq!(read_nbt(&bytes[..cut]).err(), Some(NbtError::UnexpectedEof));
        }
    }
}

#[test]
fn random_trees_are_read_whatever_follows() {
    let mut numbers = Numbers(99);
    for _ in 0..100 {
        let id = 1 + numbers.below(12) as u8;
        let name = numbers.text();
        let tag = tag_of_kind(&mut numbers, id, Some(name), 2);
        let mut bytes = Vec::new();
        write_nbt(&tag, &mut bytes).unwrap();
        let len = bytes.len();
        for _ in 0..numbers.below(8) {
            bytes.push(numbers.next() as u8);
        }
        let mut reader = Reader::new(&bytes);
        assert_eq!(reader.read_tag().unwrap(), tag);
        assert_eq!(reader.consumed(), len);
    }
}

#[test]
fn random_bytes_are_read_or_refused() {
    let mut numbers = Numbers(31337);
    let mut read = 0;
    for _ in 0..20000 {
        let len = numbers.below(40) as usize;
        let mut bytes: Vec<u8> = (0..len).map(|_| numbers.next() as u8).collect();
        if len > 0 {
            // Most of the time a kind that exists, a short name and small counts.
            bytes[0] = numbers.below(14) as u8;
            if len > 2 {
                bytes[1] = 0;
                bytes[2] = numbers.below(3) as u8;
            }
            for b in bytes.iter_mut().skip(3) {
                if numbers.below(3) != 0 {
                    *b = numbers.below(13) as u8;
                }
            }
        }
        let mut reader = Reader::new(&bytes);
        match reader.read_tag() {
            Ok(tag) => {
                read += 1;
                // What was read is written back as the bytes that were taken,
                // unless a key came twice.
                let mut written = Vec::new();
                write_nbt(&tag, &mut written).unwrap();
                assert!(written.len() <= reader.consumed());
                assert_eq!(read_nbt(&written).unwrap(), tag);
            }
            Err(_) => {}
        }
        assert!(reader.consumed() <= bytes.len());
    }
    assert!(read > 100);
}
