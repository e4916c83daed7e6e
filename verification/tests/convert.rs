use wbz_converter::library::RefLibrary;
use wbz_converter::{decode_wbz, decode_wu8, encode_wbz, encode_wu8, Error};

/// A minimal plain U8 archive: one root directory node (size 2) and one
/// 4-byte file named "a.bin", 68 bytes in all.
fn sample_u8_archive() -> Vec<u8> {
    let mut v = vec![0x55, 0xAA, 0x38, 0x2D];
    v.extend_from_slice(&32u32.to_be_bytes()); // node_offset
    v.extend_from_slice(&32u32.to_be_bytes()); // meta_size: 24 node + 8 string bytes
    v.extend_from_slice(&64u32.to_be_bytes()); // data_offset
    v.extend_from_slice(&[0u8; 16]);
    // root node: directory, no name, size = node count = 2
    v.push(1);
    v.extend_from_slice(&[0, 0, 0]);
    v.extend_from_slice(&0u32.to_be_bytes());
    v.extend_from_slice(&2u32.to_be_bytes());
    // file node: name at offset 2, payload at 64, 4 bytes
    v.push(0);
    v.extend_from_slice(&[0, 0, 2]);
    v.extend_from_slice(&64u32.to_be_bytes());
    v.extend_from_slice(&4u32.to_be_bytes());
    // string table: two reserved bytes, then "a.bin\0"
    v.push(0);
    v.push(0);
    v.extend_from_slice(b"a.bin\0");
    // payload
    v.extend_from_slice(&[0xDE, 0xAD, 0xBE, 0xEF]);
    assert_eq!(v.len(), 68);
    v
}

/// A plain U8 archive with two nested directories that both end on the same
/// boundary: root(size 5), d1(size 4), d2(size 4), file f1 inside d2, file
/// f2 back at the root.  114 bytes in all.
fn nested_u8_archive() -> Vec<u8> {
    let mut v = vec![0x55, 0xAA, 0x38, 0x2D];
    v.extend_from_slice(&32u32.to_be_bytes());
    v.extend_from_slice(&74u32.to_be_bytes()); // 60 node + 14 string bytes
    v.extend_from_slice(&106u32.to_be_bytes());
    v.extend_from_slice(&[0u8; 16]);
    let node = |v: &mut Vec<u8>, is_dir: u8, name_off: u32, data: u32, size: u32| {
        v.push(is_dir);
        v.extend_from_slice(&name_off.to_be_bytes()[1..4]);
        v.extend_from_slice(&data.to_be_bytes());
        v.extend_from_slice(&size.to_be_bytes());
    };
    node(&mut v, 1, 0, 0, 5); // root
    node(&mut v, 1, 2, 4, 4); // d1, closes before index 4
    node(&mut v, 1, 5, 4, 4); // d2, closes before index 4 as well
    node(&mut v, 0, 8, 106, 4); // f1, inside d1/d2
    node(&mut v, 0, 11, 110, 4); // f2, back at the root
    v.push(0);
    v.push(0);
    v.extend_from_slice(b"d1\0d2\0f1\0f2\0");
    v.extend_from_slice(&[0x10, 0x20, 0x30, 0x40]); // f1 payload
    v.extend_from_slice(&[0x51, 0x62, 0x73, 0x84]); // f2 payload
    assert_eq!(v.len(), 114);
    v
}

fn xor_region(v: &mut [u8], start: usize, len: usize, key: u8) {
    for b in v[start..start + len].iter_mut() {
        *b ^= key;
    }
}

#[test]
fn encode_scenario_unmatched() {
    // No library entry matches, so the derived key stays the starting key
    // (68 = 0x44) and pass two XORs exactly the 4 payload bytes with it.
    let mut buf = sample_u8_archive();
    let lib = RefLibrary::new();
    encode_wu8(&mut buf, &lib).unwrap();

    let mut expected = sample_u8_archive();
    xor_region(&mut expected, 64, 4, 0x44); // payload, derived key
    xor_region(&mut expected, 32, 32, 0x44); // node + string tables
    expected[0..4].copy_from_slice(b"WU8a");
    assert_eq!(buf, expected);
}

#[test]
fn decode_scenario_unmatched() {
    // Decoding the WU8 form built by hand gives back the plain archive:
    // the walker yields the root directory, then the file "a.bin", and
    // pass two XORs exactly its 4 payload bytes with the derived key.
    let mut wu8 = sample_u8_archive();
    xor_region(&mut wu8, 64, 4, 0x44);
    xor_region(&mut wu8, 32, 32, 0x44);
    wu8[0..4].copy_from_slice(b"WU8a");

    let lib = RefLibrary::new();
    decode_wu8(&mut wu8, &lib).unwrap();
    assert_eq!(wu8, sample_u8_archive());
}

#[test]
fn encode_scenario_matched() {
    // The library knows "a.bin", so its payload is XORed with the starting
    // key and the repeating reference bytes; no file is left for pass two.
    let mut buf = sample_u8_archive();
    let mut lib = RefLibrary::new();
    lib.add(b"a.bin".to_vec(), vec![10, 20, 30, 40, 50]);
    encode_wu8(&mut buf, &lib).unwrap();

    let refd = [10u8, 20, 30, 40, 50];
    let mut expected = sample_u8_archive();
    for i in 0..4 {
        expected[64 + i] ^= 0x44 ^ refd[i % 5];
    }
    xor_region(&mut expected, 32, 32, 0x44);
    expected[0..4].copy_from_slice(b"WU8a");
    assert_eq!(buf, expected);
}

#[test]
fn round_trip_unmatched() {
    let original = sample_u8_archive();
    let lib = RefLibrary::new();
    let mut buf = original.clone();
    encode_wu8(&mut buf, &lib).unwrap();
    assert_ne!(buf, original);
    decode_wu8(&mut buf, &lib).unwrap();
    assert_eq!(buf, original);
}

#[test]
fn round_trip_matched() {
    let original = nested_u8_archive();
    let mut lib = RefLibrary::new();
    lib.add(b"f2".to_vec(), vec![1, 2, 3, 4, 5]);
    lib.add(b"d1/f2".to_vec(), vec![9, 9, 9, 9]);
    let mut buf = original.clone();
    encode_wu8(&mut buf, &lib).unwrap();
    assert_ne!(buf, original);
    decode_wu8(&mut buf, &lib).unwrap();
    assert_eq!(buf, original);
}

#[test]
fn directory_closure_pops_both_directories() {
    // d1 and d2 both end right before index 4, so f2's path is "f2", not
    // "d1/f2": the library entry "f2" must be the one that matches, and the
    // decoy entry under "d1/f2" must be ignored.
    let mut buf = nested_u8_archive();
    let mut lib = RefLibrary::new();
    lib.add(b"d1/f2".to_vec(), vec![9, 9, 9, 9]); // decoy, listed first
    lib.add(b"f2".to_vec(), vec![1, 2, 3, 4, 5]);
    encode_wu8(&mut buf, &lib).unwrap();

    // len 114 = 0x72; derived key folds in ref bytes at 5/2, 5/3, 5/4.
    let skey = 0x72u8;
    let refd = [1u8, 2, 3, 4, 5];
    let dkey = skey ^ refd[2] ^ refd[1] ^ refd[1];
    let mut expected = nested_u8_archive();
    for i in 0..4 {
        expected[110 + i] ^= skey ^ refd[i % 5]; // f2: matched as "f2"
    }
    for i in 0..4 {
        expected[106 + i] ^= dkey; // f1: unmatched ("d1/d2/f1")
    }
    xor_region(&mut expected, 32, 74, skey);
    expected[0..4].copy_from_slice(b"WU8a");
    assert_eq!(buf, expected);
}

#[test]
fn derived_key_ignores_unmatched_payload() {
    // Changing the payload bytes of an unmatched file must not change the
    // derived key: the XOR masks applied to that file are identical.
    let mut lib = RefLibrary::new();
    lib.add(b"f2".to_vec(), vec![1, 2, 3, 4, 5]);

    let a = nested_u8_archive();
    let mut b = nested_u8_archive();
    b[106..110].copy_from_slice(&[0xAA, 0xBB, 0xCC, 0xDD]); // f1 payload

    let mut out_a = a.clone();
    let mut out_b = b.clone();
    encode_wu8(&mut out_a, &lib).unwrap();
    encode_wu8(&mut out_b, &lib).unwrap();
    for i in 106..110 {
        assert_eq!(out_a[i] ^ a[i], out_b[i] ^ b[i]);
    }
}

#[test]
fn short_reference_file_is_sampled_in_place() {
    // A 3-byte reference file is defined: the samples are its bytes at
    // indices 1 (= 3/2), 1 (= 3/3) and 0 (= 3/4).
    let mut buf = sample_u8_archive();
    let mut lib = RefLibrary::new();
    lib.add(b"a.bin".to_vec(), vec![7, 8, 9]);
    encode_wu8(&mut buf, &lib).unwrap();

    let refd = [7u8, 8, 9];
    let mut expected = sample_u8_archive();
    for i in 0..4 {
        expected[64 + i] ^= 0x44 ^ refd[i % 3];
    }
    xor_region(&mut expected, 32, 32, 0x44);
    expected[0..4].copy_from_slice(b"WU8a");
    assert_eq!(buf, expected);
}

#[test]
fn empty_reference_file_is_rejected() {
    let mut buf = sample_u8_archive();
    let mut lib = RefLibrary::new();
    lib.add(b"a.bin".to_vec(), Vec::new());
    assert_eq!(encode_wu8(&mut buf, &lib), Err(Error::EmptyReferenceFile));
}

#[test]
fn invalid_magic_leaves_buffer_untouched() {
    // A plain U8 buffer is not a WU8 buffer: decoding fails on the magic
    // before any byte of the buffer is changed.
    let original = sample_u8_archive();
    let mut buf = original.clone();
    let lib = RefLibrary::new();
    let r = decode_wu8(&mut buf, &lib);
    assert_eq!(
        r,
        Err(Error::InvalidMagic { expected: 0x57553861, found: 0x55AA382D })
    );
    assert_eq!(buf, original);
}

#[test]
fn truncated_header_is_rejected() {
    let mut buf = vec![0x55, 0xAA, 0x38, 0x2D, 0, 0];
    let lib = RefLibrary::new();
    assert_eq!(encode_wu8(&mut buf, &lib), Err(Error::TruncatedRead));
}

#[test]
fn invalid_directory_flag_is_rejected() {
    let mut buf = sample_u8_archive();
    buf[32] = 7; // root node's is_dir byte
    let lib = RefLibrary::new();
    assert_eq!(encode_wu8(&mut buf, &lib), Err(Error::InvalidBoolean { byte: 7 }));
}

#[test]
fn invalid_name_byte_is_rejected() {
    let mut buf = sample_u8_archive();
    buf[58] = 0x80; // first byte of "a.bin" in the string table
    let lib = RefLibrary::new();
    assert_eq!(encode_wu8(&mut buf, &lib), Err(Error::InvalidUtf8));
}

#[test]
fn file_payload_past_end_is_rejected() {
    // A matched file whose payload region runs past the buffer cannot be
    // keyed in place.
    let mut buf = sample_u8_archive();
    buf[44 + 8..44 + 12].copy_from_slice(&100u32.to_be_bytes()); // file size 100
    let mut lib = RefLibrary::new();
    lib.add(b"a.bin".to_vec(), vec![1, 2, 3, 4]);
    assert_eq!(encode_wu8(&mut buf, &lib), Err(Error::TruncatedRead));
}

#[test]
fn wbz_round_trip() {
    let original = sample_u8_archive();
    let mut lib = RefLibrary::new();
    lib.add(b"a.bin".to_vec(), vec![10, 20, 30, 40, 50]);

    let mut wu8 = original.clone();
    let wbz = encode_wbz(&mut wu8, &lib).unwrap();
    assert_eq!(&wbz[0..8], b"WBZaWU8a");
    assert_eq!(&wbz[8..12], &32u32.to_be_bytes()); // WU8's node_offset field
    assert_eq!(&wbz[12..16], &68u32.to_be_bytes()); // WU8 length

    let decoded = decode_wbz(&wbz, &lib).unwrap();
    assert_eq!(decoded, original);
}

#[test]
fn wbz_invalid_signature() {
    let buf = b"NOTWBZ__0123456789".to_vec();
    let lib = RefLibrary::new();
    match decode_wbz(&buf, &lib) {
        Err(Error::InvalidWbzMagic { found }) => {
            assert_eq!(found, u64::from_be_bytes(*b"NOTWBZ__"));
        }
        other => panic!("expected InvalidWbzMagic, got {:?}", other),
    }
}

#[test]
fn wbz_garbage_stream() {
    let mut buf = b"WBZaWU8a".to_vec();
    buf.extend_from_slice(&[0u8; 8]); // skipped field
    buf.extend_from_slice(&[1, 2, 3, 4, 5, 6, 7, 8]); // not a bzip2 stream
    let lib = RefLibrary::new();
    assert_eq!(decode_wbz(&buf, &lib), Err(Error::Bzip));
}

#[test]
fn wbz_truncated() {
    let lib = RefLibrary::new();
    assert_eq!(decode_wbz(&b"WBZ".to_vec(), &lib), Err(Error::TruncatedRead));
    assert_eq!(
        decode_wbz(&b"WBZaWU8a1234".to_vec(), &lib),
        Err(Error::TruncatedRead)
    );
}

#[test]
fn encode_wbz_rejects_wrong_magic() {
    let mut buf = sample_u8_archive();
    buf[0] = 0x57; // no longer the U8 magic
    let lib = RefLibrary::new();
    match encode_wbz(&mut buf, &lib) {
        Err(Error::InvalidMagic { expected, found }) => {
            assert_eq!(expected, 0x55AA382D);
            assert_eq!(found, u32::from_be_bytes([0x57, 0xAA, 0x38, 0x2D]));
        }
        other => panic!("expected InvalidMagic, got {:?}", other),
    }
}

#[test]
fn header_pass_is_an_involution() {
    // XORing the same region twice with the starting key restores the
    // buffer bit for bit.
    let original = sample_u8_archive();
    let mut buf = original.clone();
    wbz_converter::passes::perform_header_pass(&mut buf, 0x44, 32, 32);
    assert_ne!(buf, original);
    wbz_converter::passes::perform_header_pass(&mut buf, 0x44, 32, 32);
    assert_eq!(buf, original);
}

#[test]
fn starting_key_folds_length_bytes() {
    assert_eq!(wbz_converter::passes::derive_starting_key(68), 0x44);
    assert_eq!(wbz_converter::passes::derive_starting_key(0x0102_0304), 0x04);
    assert_eq!(wbz_converter::passes::derive_starting_key(0), 0);
    assert_eq!(wbz_converter::passes::derive_starting_key(u32::MAX), 0);
}
