//! Tests of the fixed-layout records: header and run-descriptor
//! encoding, decoding, validation, and overrun detection.
use blockpress::Error;
use blockpress::HEADER_SIZE;
use blockpress::Header;
use blockpress::RunDesc;

#[test]
fn header_map_test() {
    let mut output: Vec<u8> = Vec::new();
    let header = Header::new(0);
    header.write_out(&mut output).unwrap();
    let rheader = Header::decode(&output).unwrap();
    println!("{rheader:#?}");
}

#[test]
fn header_round_trip_keeps_fields() {
    let mut buf: Vec<u8> = Vec::new();
    let header = Header::new(7);
    let written = header.write_out(&mut buf).unwrap();
    assert_eq!(written, HEADER_SIZE);
    assert_eq!(buf.len(), HEADER_SIZE);
    let decoded = Header::decode(&buf).unwrap();
    assert_eq!(decoded.magic, header.magic);
    assert_eq!(decoded.version, header.version);
    assert_eq!(decoded.run_count, 7);
    assert!(decoded.validate().is_ok());
}

#[test]
fn header_encoding_is_little_endian() {
    let mut buf: Vec<u8> = Vec::new();
    Header::new(3).write_out(&mut buf).unwrap();
    assert_eq!(
        buf,
        vec![0xBB, 0x33, 0xAA, 0x55, 0x01, 0x00, 0x00, 0x00, 0x03, 0x00, 0x00, 0x00]
    );
}

#[test]
fn flipped_magic_byte_is_bad_magic() {
    for i in 0..4 {
        let mut buf: Vec<u8> = Vec::new();
        Header::new(2).write_out(&mut buf).unwrap();
        buf[i] ^= 0x01;
        assert_eq!(Header::decode(&buf), Err(Error::BadMagic));
    }
}

#[test]
fn wrong_version_is_invalid_version() {
    let mut buf: Vec<u8> = Vec::new();
    let header = Header { magic: 0x55AA33BB, version: 2, run_count: 0 };
    header.write_out(&mut buf).unwrap();
    assert_eq!(Header::decode(&buf), Err(Error::InvalidVersion));
}

#[test]
fn short_buffer_is_internal_error() {
    let buf = vec![0xBBu8, 0x33, 0xAA, 0x55, 0x01];
    assert!(matches!(Header::decode(&buf), Err(Error::Internal(_))));
    assert!(matches!(RunDesc::decode(&buf, 0), Err(Error::Internal(_))));
    assert!(matches!(RunDesc::decode(&buf, usize::MAX), Err(Error::Internal(_))));
}

#[test]
fn overrun_check_is_boundary_exact() {
    let desc = RunDesc { block_size: 10, count: 5, offset: 0 };
    assert_eq!(
        desc.validate(49),
        Err(Error::RunOverflow { block_size: 10, count: 5, offset: 0, buffer_length: 49 })
    );
    assert!(desc.validate(50).is_ok());
}

#[test]
fn overrun_check_survives_32_bit_overflow() {
    // block_size * count wraps to a small number in 32 bits; the check
    // must still reject the descriptor.
    let desc = RunDesc { block_size: 0x1000_0000, count: 16, offset: 0 };
    assert_eq!(
        desc.validate(1024),
        Err(Error::RunOverflow {
            block_size: 0x1000_0000,
            count: 16,
            offset: 0,
            buffer_length: 1024,
        })
    );
}

#[test]
fn run_desc_round_trip_keeps_fields() {
    let mut buf: Vec<u8> = Vec::new();
    let desc = RunDesc { block_size: 5, count: 3, offset: 36 };
    desc.write_out(&mut buf).unwrap();
    // Pad the buffer so the claimed range [36, 51) exists.
    buf.resize(51, 0);
    let decoded = RunDesc::decode(&buf, 0).unwrap();
    assert_eq!(decoded, desc);
}
