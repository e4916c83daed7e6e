use wbz_converter::iterator::{U8Iterator, U8NodeItem};
use wbz_converter::library::RefLibrary;
use wbz_converter::parser::{Parser, U8Header, U8Node};
use wbz_converter::Error;

#[test]
fn parser_typed_reads() {
    let data = vec![0x01, 0x02, 0x03, 0x04, 0x05, 0x06, 0x07, 0x08];
    let mut p = Parser::new(data.clone());
    assert_eq!(p.position(), Ok(0));
    assert_eq!(p.read_byte(), Ok(0x01));
    assert_eq!(p.read_u24(), Ok(0x020304));
    assert_eq!(p.read_u32(), Ok(0x05060708));
    assert_eq!(p.position(), Ok(8));
    assert_eq!(p.read_byte(), Err(Error::TruncatedRead));
    p.set_position(4);
    assert_eq!(p.read(4), Ok(vec![0x05, 0x06, 0x07, 0x08]));
    assert_eq!(p.into_inner(), data);
}

#[test]
fn parser_read_bool_strict() {
    let mut p = Parser::new(vec![0, 1, 2]);
    assert_eq!(p.read_bool(), Ok(false));
    assert_eq!(p.read_bool(), Ok(true));
    assert_eq!(p.read_bool(), Err(Error::InvalidBoolean { byte: 2 }));
}

#[test]
fn parser_read_string_restores_position() {
    // String table starts at offset 4; the name at offset 2 is "hi".
    let data = b"\x09\x09\x09\x09\0\0hi\0".to_vec();
    let mut p = Parser::new(data);
    p.set_position(1);
    assert_eq!(p.read_string(4, 2), Ok(b"hi".to_vec()));
    assert_eq!(p.position(), Ok(1));
    // Offset 0 is the empty name; a lookup past the end is a truncation.
    assert_eq!(p.read_string(4, 0), Ok(Vec::new()));
    assert_eq!(p.read_string(4, 40), Err(Error::TruncatedRead));
}

#[test]
fn parser_read_string_rejects_high_byte() {
    let mut p = Parser::new(vec![0xC3, 0xA9, 0x00]);
    assert_eq!(p.read_string(0, 0), Err(Error::InvalidUtf8));
}

#[test]
fn parser_read_string_unterminated() {
    let mut p = Parser::new(b"abc".to_vec());
    assert_eq!(p.read_string(0, 0), Err(Error::TruncatedRead));
}

#[test]
fn parser_header_roundtrip() {
    let mut data = vec![0x55, 0xAA, 0x38, 0x2D];
    data.extend_from_slice(&32u32.to_be_bytes());
    data.extend_from_slice(&100u32.to_be_bytes());
    data.extend_from_slice(&200u32.to_be_bytes());
    data.extend_from_slice(&[0u8; 16]);
    let mut p = Parser::new(data);
    assert_eq!(
        p.read_u8_header(0x55AA382D),
        Ok(U8Header { magic: 0x55AA382D, node_offset: 32, meta_size: 100, data_offset: 200 })
    );
    assert_eq!(p.position(), Ok(32));
}

#[test]
fn parser_header_wrong_magic() {
    let mut data = vec![0x57, 0x55, 0x38, 0x61];
    data.extend_from_slice(&[0u8; 28]);
    let mut p = Parser::new(data);
    assert_eq!(
        p.read_u8_header(0x55AA382D),
        Err(Error::InvalidMagic { expected: 0x55AA382D, found: 0x57553861 })
    );
}

#[test]
fn parser_read_node_fields() {
    let mut data = vec![1, 0, 0, 9];
    data.extend_from_slice(&7u32.to_be_bytes());
    data.extend_from_slice(&13u32.to_be_bytes());
    let mut p = Parser::new(data);
    assert_eq!(
        p.read_node(),
        Ok(U8Node { is_dir: true, name_offset: 9, data_offset: 7, size: 13 })
    );
}

#[test]
fn library_lookup_first_match_wins() {
    let mut lib = RefLibrary::new();
    lib.add(b"a/b".to_vec(), vec![1]);
    lib.add(b"a/b".to_vec(), vec![2]);
    lib.add(b"c".to_vec(), vec![3]);
    assert_eq!(lib.lookup(&b"a/b".to_vec()), Some(vec![1]));
    assert_eq!(lib.lookup(&b"c".to_vec()), Some(vec![3]));
    assert_eq!(lib.lookup(&b"d".to_vec()), None);
}

#[test]
fn iterator_walks_nodes_in_order() {
    // 32-byte header region (only node_offset matters to the walker),
    // root + one file node, and the name "a.bin" at string offset 2.
    let mut data = vec![0x57, 0x55, 0x38, 0x61];
    data.extend_from_slice(&32u32.to_be_bytes());
    data.extend_from_slice(&32u32.to_be_bytes());
    data.extend_from_slice(&64u32.to_be_bytes());
    data.extend_from_slice(&[0u8; 16]);
    data.push(1);
    data.extend_from_slice(&[0, 0, 0]);
    data.extend_from_slice(&0u32.to_be_bytes());
    data.extend_from_slice(&2u32.to_be_bytes());
    data.push(0);
    data.extend_from_slice(&[0, 0, 2]);
    data.extend_from_slice(&64u32.to_be_bytes());
    data.extend_from_slice(&4u32.to_be_bytes());
    data.extend_from_slice(b"\0\0a.bin\0");
    data.extend_from_slice(&[1, 2, 3, 4]);

    let mut lib = RefLibrary::new();
    lib.add(b"a.bin".to_vec(), vec![7, 8, 9, 10]);

    let mut parser = Parser::new(data);
    parser.set_position(32);
    let mut walker = U8Iterator::new(2, 56);

    match walker.next(&mut parser, &lib) {
        Some(U8NodeItem::Directory) => {}
        _ => panic!("expected the root directory first"),
    }
    match walker.next(&mut parser, &lib) {
        Some(U8NodeItem::File { node, original_data, name }) => {
            assert_eq!(name, b"a.bin".to_vec());
            assert_eq!(original_data, Some(vec![7, 8, 9, 10]));
            assert_eq!(node.data_offset, 64);
            assert_eq!(node.size, 4);
            assert!(!node.is_dir);
        }
        _ => panic!("expected the file item second"),
    }
    assert!(walker.next(&mut parser, &lib).is_none());
}
