use nbt_codec::bin::{Compression, FileParser, FileWriter};
use nbt_codec::compression::{GZIP_MAGIC_FIRST, GZIP_MAGIC_SECOND, ZLIB_MAGIC};

#[test]
fn parser_reads_named_byte_orders() {
    let x = vec![0xFF, 0x01, 0x02, 0x03, 0x04, 0x05, 0x06, 0x07, 0x08];
    let mut p = FileParser::new(&x, 0);
    assert_eq!(p.read_i8(), -1);
    assert_eq!(p.read_be_u16(), 0x0102);
    assert_eq!(p.read_le_i16(), 0x0403);
    assert_eq!(p.read_be_i32(), 0x05060708);
    assert!(p.at_end());
    let mut p = FileParser::new(&x, 1);
    assert_eq!(p.read_le_i64(), 0x0807060504030201);
    let mut p = FileParser::new(&x, 1);
    assert_eq!(p.read_be_i64(), 0x0102030405060708);
    let mut p = FileParser::new(&x, 1);
    assert_eq!(p.read_le_u16(), 0x0201);
    assert_eq!(p.read_le_i32(), 0x06050403);
    assert_eq!(p.read_be_i16(), 0x0708);
    assert_eq!(p.rest(), Vec::<u8>::new());
    let mut p = FileParser::new(&x, 8);
    assert_eq!(p.read_u8(), 0x08);
}

#[test]
fn writer_writes_named_byte_orders() {
    let mut w = FileWriter::new();
    w.write_u8(1);
    w.write_i8(-2);
    w.write_be_u16(0x0304);
    w.write_le_u16(0x0304);
    w.write_be_i16(-1);
    w.write_le_i16(0x0506);
    w.write_be_i32(0x0708090A);
    w.write_le_i32(0x0708090A);
    w.write_be_i64(1);
    w.write_le_i64(1);
    w.append(&mut vec![9, 9]);
    assert_eq!(
        w.bytes(),
        vec![
            1, 0xFE, 3, 4, 4, 3, 0xFF, 0xFF, 6, 5, 7, 8, 9, 10, 10, 9, 8, 7, 0, 0, 0, 0, 0, 0, 0, 1, 1, 0, 0, 0,
            0, 0, 0, 0, 9, 9
        ]
    );
}

#[test]
fn compression_names_and_magic_numbers() {
    assert_eq!(Compression::Uncompressed.as_str(), "uncompressed");
    assert_eq!(Compression::GZIP.as_str(), "gzip");
    assert_eq!(Compression::ZLIB.as_str(), "zlib");
    assert_eq!(Compression::GZIP.magic_number(), vec![GZIP_MAGIC_FIRST, GZIP_MAGIC_SECOND]);
    assert_eq!(Compression::GZIP.magic_number(), vec![0x1F, 0x8B]);
    assert_eq!(Compression::ZLIB.magic_number(), vec![ZLIB_MAGIC]);
    assert_eq!(Compression::Uncompressed.magic_number(), Vec::<u8>::new());
}

#[test]
fn compression_round_trips() {
    let data: Vec<u8> = (0..200u32).map(|i| (i % 7) as u8).collect();
    for c in [Compression::Uncompressed, Compression::GZIP, Compression::ZLIB] {
        let packed = c.encode(data.clone()).unwrap();
        assert!(packed.starts_with(&c.magic_number()));
        assert_eq!(c.decode(packed).unwrap(), data);
    }
    let gz = Compression::GZIP.encode(data.clone()).unwrap();
    assert_ne!(gz, data);
}

#[test]
fn compression_rejects_foreign_data() {
    assert!(Compression::GZIP.decode(vec![1, 2, 3, 4]).is_err());
    assert!(Compression::ZLIB.decode(vec![1, 2, 3, 4]).is_err());
    assert_eq!(Compression::Uncompressed.decode(vec![1, 2]).unwrap(), vec![1, 2]);
}

#[test]
fn parser_and_writer_texts() {
    let mut w = FileWriter::new();
    w.write_be_var_string(&"日\u{0}".to_string());
    w.write_le_var_string(&"ab".to_string());
    let bytes = w.bytes();
    assert_eq!(bytes, vec![0x00, 0x05, 0xE6, 0x97, 0xA5, 0xC0, 0x80, 0x02, 0x00, b'a', b'b']);
    let mut p = FileParser::new(&bytes, 0);
    assert_eq!(p.read_be_var_string(), Some("日\u{0}".to_string()));
    assert_eq!(p.read_le_var_string(), Some("ab".to_string()));
    assert!(p.at_end());
    let bad = vec![0x02, 0x00, 0xFF, 0xFF];
    let mut p = FileParser::new(&bad, 0);
    assert_eq!(p.read_le_var_string(), None);
}

#[test]
fn compressing_always_succeeds() {
    for c in [Compression::GZIP, Compression::ZLIB] {
        assert!(c.encode(Vec::new()).is_ok());
        let packed = c.encode(vec![0u8; 4096]).unwrap();
        assert!(packed.len() < 4096);
    }
}
