//! Whole-member decoding: headers, block bodies, trace and trailer
//! checks, on streams assembled byte by byte.

use gziprust::GzipError;
use gziprust::crc32;
use gziprust::deflate::Block;
use gziprust::deflate::BlockEncoding;
use gziprust::deflate::DecodeItem;
use gziprust::deflate::inflate;
use gziprust::gzip::Gzip;
use gziprust::gzip::read_int;

// A gzip member holding one dynamic-Huffman block (a small C source).
fn dynamic_member() -> Vec<u8> {
    vec![31, 139, 8, 0, 0, 0, 0, 0, 0, 3, 85, 144, 221, 78, 3, 33, 16, 133, 239, 121, 138, 177, 141, 102, 183, 37, 102, 47, 76, 141, 217, 234, 139, 84, 99, 88, 126, 218, 137, 235, 96, 128, 245, 66, 211, 119, 119, 160, 212, 109, 39, 129, 192, 153, 249, 78, 14, 44, 145, 244, 56, 25, 11, 219, 152, 12, 250, 251, 195, 139, 88, 94, 74, 35, 14, 89, 19, 49, 169, 132, 26, 144, 18, 47, 55, 170, 100, 223, 135, 209, 235, 143, 102, 162, 136, 123, 178, 6, 244, 65, 5, 88, 13, 147, 147, 101, 106, 180, 212, 194, 175, 0, 174, 2, 73, 208, 222, 88, 9, 3, 166, 216, 23, 217, 249, 0, 13, 194, 51, 116, 61, 32, 108, 51, 193, 135, 245, 250, 140, 229, 202, 12, 79, 176, 235, 14, 223, 250, 127, 57, 155, 176, 92, 186, 119, 240, 56, 55, 208, 65, 83, 154, 55, 108, 123, 105, 148, 43, 216, 52, 5, 42, 212, 76, 28, 197, 188, 215, 129, 174, 23, 71, 33, 114, 234, 79, 133, 212, 228, 131, 10, 123, 45, 235, 19, 87, 124, 249, 62, 123, 95, 63, 159, 115, 58, 27, 118, 15, 221, 211, 166, 166, 205, 48, 113, 212, 235, 79, 59, 205, 73, 136, 248, 99, 189, 171, 215, 182, 61, 33, 95, 129, 33, 215, 44, 110, 205, 43, 45, 36, 80, 149, 107, 56, 202, 225, 254, 0, 225, 109, 129, 51, 182, 1, 0, 0]
}

// A gzip member holding one fixed-Huffman block whose match distance
// carries an extra bit.
fn fixed_member() -> Vec<u8> {
    vec![31, 139, 8, 0, 0, 0, 0, 0, 0, 3, 75, 73, 77, 203, 73, 44, 73, 213, 53, 4, 83, 122, 37, 21, 37, 10, 137, 121, 41, 10, 41, 24, 194, 92, 0, 57, 224, 31, 88, 42, 0, 0, 0]
}

// A gzip member holding one stored block with the two bytes 'A' 'B',
// LEN = 2 and NLEN = 0xFFFD.
fn stored_member() -> Vec<u8> {
    vec![31, 139, 8, 0, 0, 0, 0, 0, 0, 3, 1, 2, 0, 253, 255, 65, 66, 7, 76, 105, 48, 2, 0, 0, 0]
}

// A gzip member encoding "Deflatelate" as seven literals, one length-4
// distance-4 match, and the end-of-block symbol, all in one fixed block.
fn deflatelate_member() -> Vec<u8> {
    vec![31, 139, 8, 0, 0, 0, 0, 0, 0, 3, 115, 73, 77, 203, 73, 44, 73, 5, 97, 0, 93, 105, 43, 48, 11, 0, 0, 0]
}

// A (source, member) round-trip pair whose member holds stored blocks.
fn round_trip_source() -> Vec<u8> {
    let mut src: Vec<u8> = Vec::new();
    for _ in 0..3 {
        for b in 0..=255u8 {
            src.push(b);
        }
    }
    src.extend_from_slice(b"hello world hello world");
    src
}

fn round_trip_member() -> Vec<u8> {
    vec![31, 139, 8, 0, 0, 0, 0, 0, 0, 3, 1, 23, 3, 232, 252, 0, 1, 2, 3, 4, 5, 6, 7, 8, 9, 10, 11, 12, 13, 14, 15, 16, 17, 18, 19, 20, 21, 22, 23, 24, 25, 26, 27, 28, 29, 30, 31, 32, 33, 34, 35, 36, 37, 38, 39, 40, 41, 42, 43, 44, 45, 46, 47, 48, 49, 50, 51, 52, 53, 54, 55, 56, 57, 58, 59, 60, 61, 62, 63, 64, 65, 66, 67, 68, 69, 70, 71, 72, 73, 74, 75, 76, 77, 78, 79, 80, 81, 82, 83, 84, 85, 86, 87, 88, 89, 90, 91, 92, 93, 94, 95, 96, 97, 98, 99, 100, 101, 102, 103, 104, 105, 106, 107, 108, 109, 110, 111, 112, 113, 114, 115, 116, 117, 118, 119, 120, 121, 122, 123, 124, 125, 126, 127, 128, 129, 130, 131, 132, 133, 134, 135, 136, 137, 138, 139, 140, 141, 142, 143, 144, 145, 146, 147, 148, 149, 150, 151, 152, 153, 154, 155, 156, 157, 158, 159, 160, 161, 162, 163, 164, 165, 166, 167, 168, 169, 170, 171, 172, 173, 174, 175, 176, 177, 178, 179, 180, 181, 182, 183, 184, 185, 186, 187, 188, 189, 190, 191, 192, 193, 194, 195, 196, 197, 198, 199, 200, 201, 202, 203, 204, 205, 206, 207, 208, 209, 210, 211, 212, 213, 214, 215, 216, 217, 218, 219, 220, 221, 222, 223, 224, 225, 226, 227, 228, 229, 230, 231, 232, 233, 234, 235, 236, 237, 238, 239, 240, 241, 242, 243, 244, 245, 246, 247, 248, 249, 250, 251, 252, 253, 254, 255, 0, 1, 2, 3, 4, 5, 6, 7, 8, 9, 10, 11, 12, 13, 14, 15, 16, 17, 18, 19, 20, 21, 22, 23, 24, 25, 26, 27, 28, 29, 30, 31, 32, 33, 34, 35, 36, 37, 38, 39, 40, 41, 42, 43, 44, 45, 46, 47, 48, 49, 50, 51, 52, 53, 54, 55, 56, 57, 58, 59, 60, 61, 62, 63, 64, 65, 66, 67, 68, 69, 70, 71, 72, 73, 74, 75, 76, 77, 78, 79, 80, 81, 82, 83, 84, 85, 86, 87, 88, 89, 90, 91, 92, 93, 94, 95, 96, 97, 98, 99, 100, 101, 102, 103, 104, 105, 106, 107, 108, 109, 110, 111, 112, 113, 114, 115, 116, 117, 118, 119, 120, 121, 122, 123, 124, 125, 126, 127, 128, 129, 130, 131, 132, 133, 134, 135, 136, 137, 138, 139, 140, 141, 142, 143, 144, 145, 146, 147, 148, 149, 150, 151, 152, 153, 154, 155, 156, 157, 158, 159, 160, 161, 162, 163, 164, 165, 166, 167, 168, 169, 170, 171, 172, 173, 174, 175, 176, 177, 178, 179, 180, 181, 182, 183, 184, 185, 186, 187, 188, 189, 190, 191, 192, 193, 194, 195, 196, 197, 198, 199, 200, 201, 202, 203, 204, 205, 206, 207, 208, 209, 210, 211, 212, 213, 214, 215, 216, 217, 218, 219, 220, 221, 222, 223, 224, 225, 226, 227, 228, 229, 230, 231, 232, 233, 234, 235, 236, 237, 238, 239, 240, 241, 242, 243, 244, 245, 246, 247, 248, 249, 250, 251, 252, 253, 254, 255, 0, 1, 2, 3, 4, 5, 6, 7, 8, 9, 10, 11, 12, 13, 14, 15, 16, 17, 18, 19, 20, 21, 22, 23, 24, 25, 26, 27, 28, 29, 30, 31, 32, 33, 34, 35, 36, 37, 38, 39, 40, 41, 42, 43, 44, 45, 46, 47, 48, 49, 50, 51, 52, 53, 54, 55, 56, 57, 58, 59, 60, 61, 62, 63, 64, 65, 66, 67, 68, 69, 70, 71, 72, 73, 74, 75, 76, 77, 78, 79, 80, 81, 82, 83, 84, 85, 86, 87, 88, 89, 90, 91, 92, 93, 94, 95, 96, 97, 98, 99, 100, 101, 102, 103, 104, 105, 106, 107, 108, 109, 110, 111, 112, 113, 114, 115, 116, 117, 118, 119, 120, 121, 122, 123, 124, 125, 126, 127, 128, 129, 130, 131, 132, 133, 134, 135, 136, 137, 138, 139, 140, 141, 142, 143, 144, 145, 146, 147, 148, 149, 150, 151, 152, 153, 154, 155, 156, 157, 158, 159, 160, 161, 162, 163, 164, 165, 166, 167, 168, 169, 170, 171, 172, 173, 174, 175, 176, 177, 178, 179, 180, 181, 182, 183, 184, 185, 186, 187, 188, 189, 190, 191, 192, 193, 194, 195, 196, 197, 198, 199, 200, 201, 202, 203, 204, 205, 206, 207, 208, 209, 210, 211, 212, 213, 214, 215, 216, 217, 218, 219, 220, 221, 222, 223, 224, 225, 226, 227, 228, 229, 230, 231, 232, 233, 234, 235, 236, 237, 238, 239, 240, 241, 242, 243, 244, 245, 246, 247, 248, 249, 250, 251, 252, 253, 254, 255, 104, 101, 108, 108, 111, 32, 119, 111, 114, 108, 100, 32, 104, 101, 108, 108, 111, 32, 119, 111, 114, 108, 100, 53, 9, 127, 162, 23, 3, 0, 0]
}

#[test]
fn gunzip_c_file_structure() {
    let gzip = Gzip::new(dynamic_member()).unwrap();

    assert_eq!(gzip.blocks.len(), 1);
    assert_eq!(gzip.blocks[0].encoding, BlockEncoding::HuffmanDynamic);
}

#[test]
fn gzip_distance_with_extra_bits() {
    let gzip = Gzip::new(fixed_member()).unwrap();

    assert_eq!(gzip.blocks.len(), 1);
    assert!(gzip.blocks[0].is_last);
    assert_eq!(gzip.blocks[0].encoding, BlockEncoding::HuffmanFixed);
}

#[test]
fn test_read_int() {
    let bytes = vec![0b0, 0b0, 0b0, 0b0];
    let mut pos: usize = 0;
    assert_eq!(read_int(&bytes, &mut pos, 4), 0);

    let bytes = vec![0b1, 0b0, 0b0, 0b0];
    let mut pos: usize = 0;
    assert_eq!(read_int(&bytes, &mut pos, 4), 1);

    let bytes = vec![0b0, 0b1, 0b0, 0b0];
    let mut pos: usize = 0;
    assert_eq!(read_int(&bytes, &mut pos, 4), 256);

    let bytes = vec![0b0, 0b0, 0b1, 0b0];
    let mut pos: usize = 0;
    assert_eq!(read_int(&bytes, &mut pos, 4), 0x0001_0000);

    let bytes = vec![0b0, 0b0, 0b0, 0b1];
    let mut pos: usize = 0;
    assert_eq!(read_int(&bytes, &mut pos, 4), 0x0100_0000);

    let bytes = vec![0b0000_0000, 0b1111_1111, 0b0000_0000, 0b0000_1000];
    let mut pos: usize = 0;
    assert_eq!(read_int(&bytes, &mut pos, 4), 0x0800_ff00);
}

// A stored block's two-byte body comes through verbatim.
#[test]
fn test_stored_block_two_bytes() {
    let gzip = Gzip::new(stored_member()).unwrap();
    assert_eq!(gzip.data, vec![b'A', b'B']);
    assert_eq!(gzip.blocks.len(), 1);
    assert_eq!(gzip.blocks[0].encoding, BlockEncoding::Stored);
    assert!(gzip.crc_is_valid());
    assert!(gzip.size_is_valid());
}

// "Deflatelate": literals then a length-4 distance-4 match that rereads
// the bytes four places back.
#[test]
fn test_deflatelate_fixed_match() {
    let gzip = Gzip::new(deflatelate_member()).unwrap();
    assert_eq!(gzip.data, b"Deflatelate".to_vec());
    assert!(gzip.crc_is_valid());
    assert!(gzip.size_is_valid());
    assert_eq!(gzip.decode_items.len(), 8);
    match &gzip.decode_items[7] {
        DecodeItem::Match { length, distance, data } => {
            assert_eq!(*length, 4);
            assert_eq!(*distance, 4);
            assert_eq!(data.block_id, 0);
            // 7 bits of length code 258, then the 5-bit distance code 3
            assert_eq!(
                data.bits,
                vec![false, false, false, false, false, true, false, false, false, false, true, true]
            );
        },
        _ => panic!("expected a match item"),
    }
    match &gzip.decode_items[0] {
        DecodeItem::Literal { value, data } => {
            assert_eq!(*value, b'D');
            assert_eq!(data.block_id, 0);
            // the fixed code of 'D' is 0x30 + 0x44 = 0x74, eight bits MSB-first
            assert_eq!(
                data.bits,
                vec![false, true, true, true, false, true, false, false]
            );
        },
        _ => panic!("expected a literal item"),
    }
}

// The trace records every bit of the block body: header (3 bits), the
// items' bits, and the end-of-block code (7 bits) account for the whole
// compressed payload of the single fixed block.
#[test]
fn test_trace_bits_account_for_payload() {
    let member = deflatelate_member();
    let gzip = Gzip::new(member.clone()).unwrap();
    let mut trace_bits: usize = 0;
    for item in &gzip.decode_items {
        match item {
            DecodeItem::Literal { data, .. } => trace_bits += data.bits.len(),
            DecodeItem::Match { data, .. } => trace_bits += data.bits.len(),
        }
    }
    let body_bytes = member.len() - 10 - 8;
    let padding = body_bytes * 8 - (3 + trace_bits + 7);
    assert!(padding < 8);
}

// Decoding reproduces the source and the trailer checks pass (stored
// blocks).
#[test]
fn test_round_trip_stored() {
    let gzip = Gzip::new(round_trip_member()).unwrap();
    assert_eq!(gzip.data, round_trip_source());
    assert!(gzip.crc_is_valid());
    assert!(gzip.size_is_valid());
}

// Decoding reproduces the source and the trailer checks pass (dynamic
// block).
#[test]
fn test_round_trip_dynamic() {
    let gzip = Gzip::new(dynamic_member()).unwrap();
    assert!(gzip.crc_is_valid());
    assert!(gzip.size_is_valid());
    assert!(gzip.data.starts_with(b"#include <stdio.h>"));
}

// Decoding reproduces the source and the trailer checks pass (fixed
// block).
#[test]
fn test_round_trip_fixed() {
    let gzip = Gzip::new(fixed_member()).unwrap();
    assert_eq!(gzip.data, b"deflate-1flate.txt and deflate-1flate.txt\n".to_vec());
    assert!(gzip.crc_is_valid());
    assert!(gzip.size_is_valid());
}

// The running CRC-32 of "Deflatelate" matches its IEEE value.
#[test]
fn test_crc32_value() {
    let mut c = crc32::initial_value();
    for b in b"Deflatelate" {
        c = crc32::update(c, *b);
    }
    assert_eq!(crc32::finalize(c), 0x302b_695d);
}

// The decoded data renders as text when it is UTF-8 and as a placeholder
// otherwise.
#[test]
fn test_as_string() {
    let gzip = Gzip::new(deflatelate_member()).unwrap();
    assert_eq!(gzip.as_string(), "Deflatelate".to_string());
}

// The FNAME section is read as a NUL-terminated name.
#[test]
fn test_header_filename() {
    let mut m: Vec<u8> = vec![0x1f, 0x8b, 8, 0x08, 0x78, 0x56, 0x34, 0x12, 2, 3];
    m.extend_from_slice(b"test.txt\0");
    m.extend_from_slice(&[0x01, 0x02, 0x00, 0xfd, 0xff, b'A', b'B']);
    m.extend_from_slice(&[0x07, 0x4c, 0x69, 0x30, 2, 0, 0, 0]);
    let gzip = Gzip::new(m).unwrap();
    assert_eq!(gzip.headers.filename, Some("test.txt".to_string()));
    assert_eq!(gzip.headers.comment, None);
    assert_eq!(gzip.headers.mtime, 0x12345678);
    assert!(!gzip.headers.is_text);
    assert_eq!(gzip.data, vec![b'A', b'B']);
    assert!(gzip.crc_is_valid());
}

// Data that is not UTF-8 renders as the placeholder.
#[test]
fn test_as_string_binary() {
    let mut m: Vec<u8> = vec![0x1f, 0x8b, 8, 0, 0, 0, 0, 0, 0, 3];
    m.extend_from_slice(&[0x01, 0x02, 0x00, 0xfd, 0xff, 0xff, 0xfe]);
    m.extend_from_slice(&[0x96, 0x30, 0xf8, 0x88, 2, 0, 0, 0]);
    let gzip = Gzip::new(m).unwrap();
    assert_eq!(gzip.data, vec![0xff, 0xfe]);
    assert!(gzip.crc_is_valid());
    assert_eq!(gzip.as_string(), "<binary data>".to_string());
}

// A corrupted trailer CRC is reported by the accessor, not as a decode
// failure.
#[test]
fn test_crc_mismatch_reported() {
    let mut member = deflatelate_member();
    let n = member.len();
    member[n - 8] ^= 0xff;
    let gzip = Gzip::new(member).unwrap();
    assert!(!gzip.crc_is_valid());
    assert!(gzip.size_is_valid());
    assert_eq!(gzip.data, b"Deflatelate".to_vec());
}

fn member_with_body(body: &[u8]) -> Vec<u8> {
    let mut m: Vec<u8> = vec![0x1f, 0x8b, 8, 0, 0, 0, 0, 0, 0, 3];
    m.extend_from_slice(body);
    m.extend_from_slice(&[0, 0, 0, 0, 0, 0, 0, 0]);
    m
}

#[test]
fn test_error_wrong_magic() {
    let bytes = vec![0x1f, 0x8c, 8, 0, 0, 0, 0, 0, 0, 3, 0, 0, 0, 0, 0, 0, 0, 0];
    assert_eq!(Gzip::new(bytes).unwrap_err(), GzipError::WrongMagic);
}

#[test]
fn test_error_unsupported_compression() {
    let bytes = vec![0x1f, 0x8b, 9, 0, 0, 0, 0, 0, 0, 3, 0, 0, 0, 0, 0, 0, 0, 0];
    assert_eq!(Gzip::new(bytes).unwrap_err(), GzipError::UnsupportedCompression);
}

#[test]
fn test_error_bad_os_id() {
    let bytes = vec![0x1f, 0x8b, 8, 0, 0, 0, 0, 0, 0, 42, 0, 0, 0, 0, 0, 0, 0, 0];
    assert_eq!(Gzip::new(bytes).unwrap_err(), GzipError::BadOsId);
}

#[test]
fn test_error_reserved_block_encoding() {
    let m = member_with_body(&[0x07]);
    assert_eq!(Gzip::new(m).unwrap_err(), GzipError::ReservedBlockEncoding);
}

#[test]
fn test_error_stored_len_mismatch() {
    let m = member_with_body(&[0x01, 0x02, 0x00, 0x34, 0x12, b'A', b'B']);
    assert_eq!(Gzip::new(m).unwrap_err(), GzipError::StoredLenMismatch);
}

#[test]
fn test_error_unexpected_end_of_stream() {
    // a fixed block whose end-of-block code is cut short
    assert_eq!(inflate(vec![0x03]).unwrap_err(), GzipError::UnexpectedEndOfStream);
}

#[test]
fn test_error_bad_literal_length_symbol() {
    // the fixed-alphabet symbol 286 must not appear in a stream
    assert_eq!(inflate(vec![27, 3]).unwrap_err(), GzipError::BadLiteralLengthSymbol);
}

#[test]
fn test_error_bad_distance_code() {
    // a fixed block reading the raw 5-bit distance code 30
    assert_eq!(inflate(vec![75, 4, 62]).unwrap_err(), GzipError::BadDistanceCode);
}

#[test]
fn test_error_bad_back_reference() {
    // a match before any output exists
    assert_eq!(inflate(vec![3, 2]).unwrap_err(), GzipError::BadBackReference);
}

#[test]
fn test_error_bad_huffman_walk() {
    // a dynamic block whose meta-tree has only the one-bit code '0', then
    // a '1' bit walks into the absent edge
    assert_eq!(inflate(vec![5, 0, 0, 36]).unwrap_err(), GzipError::BadHuffmanWalk);
}

#[test]
fn test_error_bad_huffman_tree() {
    // a dynamic block announcing HDIST = 30: one distance code too many
    assert_eq!(inflate(vec![5, 30, 0]).unwrap_err(), GzipError::BadHuffmanTree);
}

// The inflater's own result carries the finished CRC of its data.
#[test]
fn test_inflate_result_fields() {
    let member = deflatelate_member();
    let body: Vec<u8> = member[10..member.len() - 8].to_vec();
    let result = inflate(body).unwrap();
    assert_eq!(result.data, b"Deflatelate".to_vec());
    assert_eq!(result.crc32, 0x302b_695d);
    assert_eq!(result.blocks, vec![Block { is_last: true, encoding: BlockEncoding::HuffmanFixed }]);
}
