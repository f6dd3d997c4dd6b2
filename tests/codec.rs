use nbt_codec::binary as bin;
use nbt_codec::binary::{BinError, FileReader, FileWriter, TagIo, Writer};
use nbt_codec::nbt;
use nbt_codec::nbt::{decode, encode, List, Tag};

#[test]
fn read_u8() {
    {
        let x = &vec![0x01];
        let mut fr = bin::FileReaderBE::new(x, 0);
        let byte = fr.read::<u8>().unwrap();
        assert_eq!(byte, 0x01);
    }
}

#[test]
fn read_be_byte_tag() {
    let x = &vec![0x00, 0x01, 0x02, 0x03];
    let tag_id = 0x01;
    let mut fr = bin::FileReaderBE::new(x, 0);
    assert_eq!(nbt::Tag::read(tag_id, &mut fr).unwrap(), nbt::Tag::Byte(0x00));
    assert_eq!(nbt::Tag::read(tag_id, &mut fr).unwrap(), nbt::Tag::Byte(0x01));
    assert_eq!(nbt::Tag::read(tag_id, &mut fr).unwrap(), nbt::Tag::Byte(0x02));
    assert_eq!(nbt::Tag::read(tag_id, &mut fr).unwrap(), nbt::Tag::Byte(0x03));
}

#[test]
fn read_le_byte_tag() {
    let x = &vec![0x00, 0x01, 0x02, 0x03];
    let tag_id = 0x01;
    let mut fr = bin::FileReaderLE::new(x, 0);
    assert_eq!(nbt::Tag::read(tag_id, &mut fr).unwrap(), nbt::Tag::Byte(0x00));
    assert_eq!(nbt::Tag::read(tag_id, &mut fr).unwrap(), nbt::Tag::Byte(0x01));
    assert_eq!(nbt::Tag::read(tag_id, &mut fr).unwrap(), nbt::Tag::Byte(0x02));
    assert_eq!(nbt::Tag::read(tag_id, &mut fr).unwrap(), nbt::Tag::Byte(0x03));
}

#[test]
fn read_be_short_tag() {
    {
        let x = &vec![0x00, 0x04, 0x01, 0x05, 0x02, 0x06, 0x03, 0x07];
        let tag_id = 0x02;
        let mut fr = bin::FileReaderBE::new(x, 0);
        assert_eq!(nbt::Tag::read(tag_id, &mut fr).unwrap(), nbt::Tag::Short(0x0004));
        assert_eq!(nbt::Tag::read(tag_id, &mut fr).unwrap(), nbt::Tag::Short(0x0105));
        assert_eq!(nbt::Tag::read(tag_id, &mut fr).unwrap(), nbt::Tag::Short(0x0206));
        assert_eq!(nbt::Tag::read(tag_id, &mut fr).unwrap(), nbt::Tag::Short(0x0307));
    }
}

#[test]
fn read_le_short_tag() {
    {
        let x = &vec![0x00, 0x04, 0x01, 0x05, 0x02, 0x06, 0x03, 0x07];
        let tag_id = 0x02;
        let mut fr = bin::FileReaderLE::new(x, 0);
        assert_eq!(nbt::Tag::read(tag_id, &mut fr).unwrap(), nbt::Tag::Short(0x0400));
        assert_eq!(nbt::Tag::read(tag_id, &mut fr).unwrap(), nbt::Tag::Short(0x0501));
        assert_eq!(nbt::Tag::read(tag_id, &mut fr).unwrap(), nbt::Tag::Short(0x0602));
        assert_eq!(nbt::Tag::read(tag_id, &mut fr).unwrap(), nbt::Tag::Short(0x0703));
    }
}

fn entry(name: &str, t: Tag) -> (String, Tag) {
    (name.to_string(), t)
}

fn sample() -> Tag {
    let inner = Tag::Compound(vec![
        entry("x", Tag::Int(-7)),
        entry("name", Tag::String("zoë 日本".to_string())),
    ]);
    Tag::Compound(vec![
        entry("byte", Tag::Byte(-3)),
        entry("short", Tag::Short(-300)),
        entry("int", Tag::Int(0x12345678)),
        entry("long", Tag::Long(-0x0102030405060708)),
        entry("float", Tag::Float(1.5f32.to_bits())),
        entry("double", Tag::Double((-2.25f64).to_bits())),
        entry("bytes", Tag::ByteArray(vec![1, -1, 127, -128])),
        entry("text", Tag::String("hello".to_string())),
        entry("ints", Tag::List(List::Int(vec![1, 2, 3]))),
        entry("strings", Tag::List(List::String(vec!["a".to_string(), "bc".to_string()]))),
        entry("lists", Tag::List(List::List(vec![List::Short(vec![5]), List::Empty]))),
        entry("compounds", Tag::List(List::Compound(vec![vec![entry("k", Tag::Byte(1))], vec![]]))),
        entry("arrays", Tag::List(List::LongArray(vec![vec![1, 2], vec![]]))),
        entry("inner", inner),
        entry("int_array", Tag::IntArray(vec![-1, 0, 1])),
        entry("long_array", Tag::LongArray(vec![i64::MIN, i64::MAX])),
    ])
}

#[test]
fn round_trip_big_endian() {
    let t = sample();
    let bytes = encode(&t, true);
    assert_eq!(decode(&bytes, true).unwrap(), t);
}

#[test]
fn round_trip_little_endian() {
    let t = sample();
    let bytes = encode(&t, false);
    assert_eq!(decode(&bytes, false).unwrap(), t);
}

#[test]
fn byte_orders_differ_on_the_wire() {
    let t = Tag::Compound(vec![entry("s", Tag::Short(0x0102))]);
    assert_eq!(encode(&t, true), vec![0x02, 0x00, 0x01, b's', 0x01, 0x02, 0x00]);
    assert_eq!(encode(&t, false), vec![0x02, 0x01, 0x00, b's', 0x02, 0x01, 0x00]);
}

#[test]
fn empty_lists_are_written_as_end_lists() {
    for l in [List::Empty, List::Int(vec![]), List::Compound(vec![]), List::LongArray(vec![])] {
        let mut fw = bin::FileWriterBE::new();
        l.write(&mut fw);
        assert_eq!(fw.bytes(), vec![0x00, 0x00, 0x00, 0x00, 0x00]);
    }
}

#[test]
fn empty_list_bytes_read_as_empty() {
    let x = vec![0x00, 0x00, 0x00, 0x00, 0x00];
    let mut fr = bin::FileReaderBE::new(&x, 0);
    assert_eq!(Tag::read(0x09, &mut fr).unwrap(), Tag::List(List::Empty));
    assert!(fr.at_end());
}

#[test]
fn non_positive_count_is_empty_list_whatever_the_id() {
    let x = vec![0x03, 0xFF, 0xFF, 0xFF, 0xFE];
    let mut fr = bin::FileReaderBE::new(&x, 0);
    assert_eq!(Tag::read(0x09, &mut fr).unwrap(), Tag::List(List::Empty));
    let y = vec![0x00, 0x00, 0x00];
    let mut fr = bin::FileReaderLE::new(&y, 0);
    assert_eq!(nbt::read_list(0x42, &mut fr).unwrap_err(), BinError::UnexpectedEndOfByteStream);
}

#[test]
fn typed_empty_list_reads_back_as_empty() {
    let t = Tag::Compound(vec![entry("l", Tag::List(List::Byte(vec![])))]);
    let back = decode(&encode(&t, true), true).unwrap();
    assert_eq!(back, Tag::Compound(vec![entry("l", Tag::List(List::Empty))]));
}

#[test]
fn end_typed_list_with_elements_fails() {
    let x = vec![0x00, 0x00, 0x00, 0x00, 0x01];
    let mut fr = bin::FileReaderBE::new(&x, 0);
    assert!(matches!(Tag::read(0x09, &mut fr), Err(BinError::Parsing(_))));
}

#[test]
fn short_buffer_is_end_of_stream() {
    let x = vec![0x01];
    let mut fr = bin::FileReaderBE::new(&x, 0);
    assert_eq!(Tag::read(0x02, &mut fr).unwrap_err(), BinError::UnexpectedEndOfByteStream);
    let y = vec![0x01, 0x02, 0x03];
    let mut fr = bin::FileReaderLE::new(&y, 0);
    assert_eq!(Tag::read(0x03, &mut fr).unwrap_err(), BinError::UnexpectedEndOfByteStream);
    let z = vec![0x00, 0x05, b'a'];
    let mut fr = bin::FileReaderBE::new(&z, 0);
    assert_eq!(Tag::read(0x08, &mut fr).unwrap_err(), BinError::UnexpectedEndOfByteStream);
}

#[test]
fn unknown_id_is_a_parsing_error() {
    let x = vec![0x00];
    let mut fr = bin::FileReaderBE::new(&x, 0);
    match Tag::read(0xFF, &mut fr) {
        Err(BinError::Parsing(m)) => assert!(m.contains("255")),
        other => panic!("unexpected {:?}", other),
    }
}

#[test]
fn unknown_id_inside_a_compound_fails_the_document() {
    let x = vec![0x01, 0x00, 0x01, b'a', 0x05, 0xFF, 0x00, 0x01, b'b', 0x00];
    match decode(&x, true) {
        Err(BinError::Parsing(m)) => assert!(m.contains("255")),
        other => panic!("unexpected {:?}", other),
    }
    let y = vec![0x09, 0x00, 0x01, b'l', 0xFF, 0x00, 0x00, 0x00, 0x01, 0x00];
    match decode(&y, true) {
        Err(BinError::Parsing(m)) => assert!(m.contains("255")),
        other => panic!("unexpected {:?}", other),
    }
}

#[test]
fn later_duplicate_key_wins() {
    let x = vec![
        0x01, 0x00, 0x01, b'a', 0x05, 0x03, 0x00, 0x01, b'a', 0x00, 0x00, 0x00, 0x09, 0x00, 0x7F,
    ];
    let mut fr = bin::FileReaderBE::new(&x, 0);
    let t = Tag::read(0x0A, &mut fr).unwrap();
    assert_eq!(t, Tag::Compound(vec![entry("a", Tag::Int(9))]));
    assert_eq!(fr.rest(), vec![0x7F]);
}

#[test]
fn compound_may_end_at_the_end_of_the_buffer() {
    let x = vec![0x01, 0x00, 0x01, b'a', 0x05];
    assert_eq!(decode(&x, true).unwrap(), Tag::Compound(vec![entry("a", Tag::Byte(5))]));
    assert_eq!(decode(&vec![], false).unwrap(), Tag::Compound(vec![]));
}

#[test]
fn string_length_counts_encoded_bytes() {
    let mut fw = bin::FileWriterBE::new();
    fw.write_string(&"é日".to_string());
    assert_eq!(fw.bytes(), vec![0x00, 0x05, 0xC3, 0xA9, 0xE6, 0x97, 0xA5]);
    let mut fw = bin::FileWriterLE::new();
    fw.write_string(&"a\u{0}".to_string());
    assert_eq!(fw.bytes(), vec![0x03, 0x00, b'a', 0xC0, 0x80]);
    let mut fw = bin::FileWriterBE::new();
    fw.write_string(&"\u{1F600}".to_string());
    let b = fw.bytes();
    assert_eq!(&b[..2], &[0x00, 0x06]);
    assert_eq!(b.len(), 8);
}

#[test]
fn multibyte_strings_round_trip() {
    for s in ["", "日本語", "nul\u{0}inside", "emoji \u{1F600}!"] {
        let t = Tag::Compound(vec![entry(s, Tag::String(s.to_string()))]);
        assert_eq!(decode(&encode(&t, false), false).unwrap(), t);
    }
}

#[test]
fn invalid_modified_utf8_is_a_parsing_error() {
    let x = vec![0x00, 0x02, 0xFF, 0xFE];
    let mut fr = bin::FileReaderBE::new(&x, 0);
    assert!(matches!(fr.read_string(), Err(BinError::Parsing(_))));
}

#[test]
fn negative_array_length_fails() {
    let x = vec![0xFF, 0xFF, 0xFF, 0xFF];
    let mut fr = bin::FileReaderBE::new(&x, 0);
    assert!(matches!(Tag::read(0x0B, &mut fr), Err(BinError::Parsing(_))));
}

#[test]
fn long_array_list_uses_its_own_id() {
    let mut fw = bin::FileWriterBE::new();
    List::LongArray(vec![vec![7]]).write(&mut fw);
    assert_eq!(
        fw.bytes(),
        vec![0x0C, 0, 0, 0, 1, 0, 0, 0, 1, 0, 0, 0, 0, 0, 0, 0, 7]
    );
}

#[test]
fn list_of_lists_reads_nested_headers() {
    let x = vec![0x09, 0, 0, 0, 2, 0x01, 0, 0, 0, 1, 0x2A, 0x00, 0, 0, 0, 0];
    let mut fr = bin::FileReaderBE::new(&x, 0);
    assert_eq!(
        Tag::read(0x09, &mut fr).unwrap(),
        Tag::List(List::List(vec![List::Byte(vec![42]), List::Empty]))
    );
    assert!(fr.at_end());
}

#[test]
fn wrapped_gives_a_single_entry_compound() {
    let t = Tag::Int(4).wrapped("root".to_string());
    assert_eq!(t, Tag::Compound(vec![entry("root", Tag::Int(4))]));
    assert_eq!(t.tag_id(), 0x0A);
}

#[test]
fn list_len_counts_elements() {
    assert_eq!(List::Empty.len(), 0);
    assert_eq!(List::String(vec!["a".to_string(); 3]).len(), 3);
}

#[test]
fn reader_rest_and_slices() {
    let x = vec![1, 2, 3, 4];
    let mut fr = bin::FileReaderLE::new(&x, 1);
    assert_eq!(fr.rest(), vec![2, 3, 4]);
    assert_eq!(fr.get_slice(2).unwrap(), &[2, 3]);
    assert!(!fr.at_end());
    assert_eq!(fr.get_slice(5).unwrap_err(), BinError::UnexpectedEndOfByteStream);
    assert_eq!(fr.rest(), Vec::<u8>::new());
}

#[test]
fn typed_reads_follow_byte_order() {
    let x = vec![0x01, 0x02, 0x03, 0x04, 0x05, 0x06, 0x07, 0x08];
    let mut be = bin::FileReaderBE::new(&x, 0);
    assert_eq!(be.read_i32().unwrap(), 0x01020304);
    assert_eq!(be.read_u16().unwrap(), 0x0506);
    let mut le = bin::FileReaderLE::new(&x, 0);
    assert_eq!(le.read_i64().unwrap(), 0x0807060504030201);
    let mut le = bin::FileReaderLE::new(&x, 0);
    assert_eq!(le.read::<u32>().unwrap(), 0x04030201);
}

#[test]
fn typed_writes_follow_byte_order() {
    let mut be = bin::FileWriterBE::new();
    be.write_i32(-2);
    be.write_i16(0x0102);
    assert_eq!(be.bytes(), vec![0xFF, 0xFF, 0xFF, 0xFE, 0x01, 0x02]);
    let mut le = bin::FileWriterLE::new();
    le.write_i64(0x0102030405060708);
    le.write_i8(-1);
    assert_eq!(le.bytes(), vec![8, 7, 6, 5, 4, 3, 2, 1, 0xFF]);
}

#[test]
fn canonical_tags_are_recognised() {
    assert!(sample().is_canonical());
    assert!(Tag::List(List::Empty).is_canonical());
    assert!(!Tag::List(List::Int(vec![])).is_canonical());
    let dup = Tag::Compound(vec![entry("a", Tag::Byte(1)), entry("a", Tag::Byte(2))]);
    assert!(!dup.is_canonical());
    let nested = Tag::List(List::Compound(vec![vec![entry("k", Tag::List(List::String(vec![])))]]));
    assert!(!nested.is_canonical());
    let long = Tag::String("x".repeat(70000));
    assert!(!long.is_canonical());
    assert!(Tag::String("x".repeat(65535)).is_canonical());
}

#[test]
fn canonical_compounds_round_trip() {
    let t = sample();
    assert!(t.is_canonical());
    for big in [true, false] {
        let bytes = encode(&t, big);
        assert_eq!(decode(&bytes, big).unwrap(), t);
    }
}

#[test]
fn readers_read_the_other_order_in_place() {
    let x = vec![0x01, 0x02, 0x03, 0x04];
    let mut be = bin::FileReaderBE::new(&x, 0);
    assert_eq!(be.read_le::<u16>().unwrap(), 0x0201);
    assert_eq!(be.read_be::<u16>().unwrap(), 0x0304);
    assert!(be.at_end());
    let mut le = bin::FileReaderLE::new(&x, 0);
    assert_eq!(le.read_be::<i32>().unwrap(), 0x01020304);
    assert_eq!(le.read_le::<u8>().unwrap_err(), BinError::UnexpectedEndOfByteStream);
}

#[test]
fn writers_write_the_other_order() {
    let mut be = bin::FileWriterBE::new();
    be.write_le(&0x0102u16);
    be.write_be(&0x0304u16);
    assert_eq!(be.bytes(), vec![0x02, 0x01, 0x03, 0x04]);
    let mut le = bin::FileWriterLE::new();
    le.write_be(&-2i64);
    assert_eq!(le.bytes(), vec![0xFF, 0xFF, 0xFF, 0xFF, 0xFF, 0xFF, 0xFF, 0xFE]);
}

#[test]
fn error_messages_name_their_case() {
    let x = vec![0x00, 0x00, 0x00, 0x00, 0x02];
    let mut fr = bin::FileReaderBE::new(&x, 0);
    assert_eq!(
        Tag::read(0x09, &mut fr).unwrap_err(),
        BinError::Parsing("Lists of type \"Tag End\" can't have a length greater than 0".to_string())
    );
    let y = vec![0xFF, 0xFF, 0xFF, 0xFE];
    let mut fr = bin::FileReaderLE::new(&y, 0);
    assert_eq!(
        Tag::read(0x07, &mut fr).unwrap_err(),
        BinError::Parsing("an array length is negative".to_string())
    );
    let z = vec![0x00, 0x01, 0xFF];
    let mut fr = bin::FileReaderBE::new(&z, 0);
    assert_eq!(fr.read_string().unwrap_err(), BinError::Parsing("text is not modified UTF-8".to_string()));
    for (id, text) in [(0u8, "Invalid Tag ID: 0"), (13, "Invalid Tag ID: 13"), (255, "Invalid Tag ID: 255")] {
        let mut fr = bin::FileReaderBE::new(&z, 0);
        assert_eq!(Tag::read(id, &mut fr).unwrap_err(), BinError::Parsing(text.to_string()));
    }
}

#[test]
fn unknown_id_consumes_nothing() {
    let x = vec![0x01, 0x02, 0x03];
    let mut fr = bin::FileReaderLE::new(&x, 1);
    assert!(Tag::read(0xFF, &mut fr).is_err());
    assert_eq!(fr.rest(), vec![0x02, 0x03]);
    assert!(Tag::read(0x00, &mut fr).is_err());
    assert_eq!(fr.rest(), vec![0x02, 0x03]);
}

#[test]
fn repeated_names_keep_each_last_value() {
    let x = vec![
        0x01, 0x00, 0x01, b'a', 0x01, 0x01, 0x00, 0x01, b'b', 0x02, 0x01, 0x00, 0x01, b'a', 0x03,
        0x01, 0x00, 0x01, b'b', 0x04, 0x01, 0x00, 0x01, b'c', 0x05, 0x00,
    ];
    let mut fr = bin::FileReaderBE::new(&x, 0);
    assert_eq!(
        Tag::read(0x0A, &mut fr).unwrap(),
        Tag::Compound(vec![entry("a", Tag::Byte(3)), entry("b", Tag::Byte(4)), entry("c", Tag::Byte(5))])
    );
    assert!(fr.at_end());
}
