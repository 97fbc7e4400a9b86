//! Canonical Huffman construction and decoding on concrete tables.

use gziprust::huffman::HuffmanNode;
use gziprust::huffman::HuffmanRange;
use gziprust::huffman::fixed_byte_bit_lengths;

// Turn a value into `len` bool bits, to feed codes to the tree.
fn to_bits(val: u32, len: usize) -> Vec<bool> {
    let mut result = vec![];
    let mut val = val;
    loop {
        result.push(val % 2 == 1);
        val >>= 1;
        if val == 0 {
            break;
        }
    }

    while result.len() < len {
        result.push(false);
    }
    result.reverse();
    result
}

#[test]
fn test_to_bits() {
    let byte = 0;
    assert_eq!(to_bits(byte, 1), [false]);

    let byte = 1;
    assert_eq!(to_bits(byte, 1), [true]);

    let byte = 1;
    assert_eq!(to_bits(byte, 3), [false, false, true]);

    let byte = 0b000_0000;
    assert_eq!(
        to_bits(byte, 7),
        [false, false, false, false, false, false, false]
    );
}

#[test]
fn huffman_test_to_bits() {
    let byte = 0;
    assert_eq!(to_bits(byte, 1), [false]);

    let byte = 1;
    assert_eq!(to_bits(byte, 1), [true]);

    let byte = 1;
    assert_eq!(to_bits(byte, 3), [false, false, true]);

    let byte = 0b000_0000;
    assert_eq!(
        to_bits(byte, 7),
        [false, false, false, false, false, false, false]
    );
}

#[test]
fn test_fixed() {
    let root = HuffmanNode::fixed().unwrap();
    assert_eq!(root.decode(&to_bits(0b0011_0000, 8)), Some(0));
    assert_eq!(root.decode(&to_bits(0b0011_1001, 8)), Some(9));
    assert_eq!(root.decode(&to_bits(0b1011_1111, 8)), Some(143));

    assert_eq!(root.decode(&to_bits(0b1100_0000, 8)), Some(280));
    assert_eq!(root.decode(&to_bits(0b1100_0010, 8)), Some(282));
    assert_eq!(root.decode(&to_bits(0b1100_0111, 8)), Some(287));

    assert_eq!(root.decode(&to_bits(0b000_0000, 7)), Some(256));
    assert_eq!(root.decode(&to_bits(0b000_0001, 7)), Some(257));
    assert_eq!(root.decode(&to_bits(0b000_0010, 7)), Some(258));
    assert_eq!(root.decode(&to_bits(0b000_0110, 7)), Some(262));
    assert_eq!(root.decode(&to_bits(0b000_1110, 7)), Some(270));
    assert_eq!(root.decode(&to_bits(0b001_0111, 7)), Some(279));

    assert_eq!(root.decode(&to_bits(0b1_1001_0000, 9)), Some(144));
    assert_eq!(root.decode(&to_bits(0b1_1111_1111, 9)), Some(255));
}

#[test]
fn huffman_test_fixed() {
    let root = HuffmanNode::fixed().unwrap();
    assert_eq!(root.decode(&to_bits(0b0011_0000, 8)), Some(0));
    assert_eq!(root.decode(&to_bits(0b0011_1001, 8)), Some(9));
    assert_eq!(root.decode(&to_bits(0b1011_1111, 8)), Some(143));

    assert_eq!(root.decode(&to_bits(0b1100_0000, 8)), Some(280));
    assert_eq!(root.decode(&to_bits(0b1100_0010, 8)), Some(282));
    assert_eq!(root.decode(&to_bits(0b1100_0111, 8)), Some(287));

    assert_eq!(root.decode(&to_bits(0b000_0000, 7)), Some(256));
    assert_eq!(root.decode(&to_bits(0b000_0001, 7)), Some(257));
    assert_eq!(root.decode(&to_bits(0b000_0010, 7)), Some(258));
    assert_eq!(root.decode(&to_bits(0b000_0110, 7)), Some(262));
    assert_eq!(root.decode(&to_bits(0b000_1110, 7)), Some(270));
    assert_eq!(root.decode(&to_bits(0b001_0111, 7)), Some(279));

    assert_eq!(root.decode(&to_bits(0b1_1001_0000, 9)), Some(144));
    assert_eq!(root.decode(&to_bits(0b1_1111_1111, 9)), Some(255));
}

fn fixed_code_lengths() -> Vec<u8> {
    let mut code_lengths = Vec::with_capacity(287);
    for _i in 0..=143 {
        code_lengths.push(8);
    }
    for _i in 144..=255 {
        code_lengths.push(9);
    }
    for _i in 256..=279 {
        code_lengths.push(7);
    }
    for _i in 280..=287 {
        code_lengths.push(8);
    }
    code_lengths
}

#[test]
fn test_generation_of_fixed_huffman_ranges() {
    assert_eq!(
        HuffmanNode::from_code_lengths(&fixed_code_lengths()).unwrap(),
        HuffmanNode::fixed().unwrap()
    );
}

#[test]
fn test_dynamic() {
    let keys = vec![6, 7, 7, 3, 3, 2, 3, 3, 4, 4, 5, 4];
    let root = HuffmanNode::from_header_code_lengths(keys).unwrap();

    assert_eq!(root.decode(&to_bits(0b010, 3)), Some(0));
    assert_eq!(root.decode(&to_bits(0b1100, 4)), Some(4));
    assert_eq!(root.decode(&to_bits(0b1101, 4)), Some(5));
    assert_eq!(root.decode(&to_bits(0b011, 3)), Some(6));
    assert_eq!(root.decode(&to_bits(0b00, 2)), Some(7));
    assert_eq!(root.decode(&to_bits(0b01, 2)), None);
    assert_eq!(root.decode(&to_bits(0b100, 3)), Some(8));
    assert_eq!(root.decode(&to_bits(0b101, 3)), Some(9));
    assert_eq!(root.decode(&to_bits(0b110, 3)), None);
    assert_eq!(root.decode(&to_bits(0b1110, 4)), Some(10));
    assert_eq!(root.decode(&to_bits(0b11110, 5)), Some(11));
    assert_eq!(root.decode(&to_bits(0b11_1110, 6)), Some(16));
    assert_eq!(root.decode(&to_bits(0b111_1110, 7)), Some(17));
    assert_eq!(root.decode(&to_bits(0b111_1111, 7)), Some(18));
}

#[test]
fn huffman_test_dynamic() {
    let keys = vec![6, 7, 7, 3, 3, 2, 3, 3, 4, 4, 5, 4];
    let root = HuffmanNode::from_header_code_lengths(keys).unwrap();

    assert_eq!(root.decode(&to_bits(0b010, 3)), Some(0));
    assert_eq!(root.decode(&to_bits(0b1100, 4)), Some(4));
    assert_eq!(root.decode(&to_bits(0b1101, 4)), Some(5));
    assert_eq!(root.decode(&to_bits(0b011, 3)), Some(6));
    assert_eq!(root.decode(&to_bits(0b00, 2)), Some(7));
    assert_eq!(root.decode(&to_bits(0b01, 2)), None);
    assert_eq!(root.decode(&to_bits(0b100, 3)), Some(8));
    assert_eq!(root.decode(&to_bits(0b101, 3)), Some(9));
    assert_eq!(root.decode(&to_bits(0b110, 3)), None);
    assert_eq!(root.decode(&to_bits(0b1110, 4)), Some(10));
    assert_eq!(root.decode(&to_bits(0b11110, 5)), Some(11));
    assert_eq!(root.decode(&to_bits(0b11_1110, 6)), Some(16));
    assert_eq!(root.decode(&to_bits(0b111_1110, 7)), Some(17));
    assert_eq!(root.decode(&to_bits(0b111_1111, 7)), Some(18));
}

// The byte symbols of the fixed tree take 8 bits up to 143 and 9 after.
#[test]
fn test_fixed_byte_bit_lengths() {
    let byte_bit_lengths = fixed_byte_bit_lengths();
    assert_eq!(byte_bit_lengths.len(), 256);
    assert_eq!(byte_bit_lengths[0], 8);
    assert_eq!(byte_bit_lengths[143], 8);
    assert_eq!(byte_bit_lengths[144], 9);
    assert_eq!(byte_bit_lengths[255], 9);
}

// An over-subscribed length set admits no prefix-free code.
#[test]
fn test_oversubscribed_lengths_rejected() {
    let lengths = vec![1u8, 1, 1];
    assert!(HuffmanNode::from_code_lengths(&lengths).is_err());
}

// A feasible length set always builds a decoder: construction may not
// reject a workable table.
#[test]
fn test_feasible_lengths_accepted() {
    assert!(HuffmanNode::from_code_lengths(&vec![1u8, 2, 2]).is_ok());
    assert!(HuffmanNode::from_code_lengths(&vec![2u8, 0, 2, 2, 0, 2]).is_ok());
    // an incomplete code is feasible too: one 2-bit symbol alone
    assert!(HuffmanNode::from_code_lengths(&vec![0u8, 2]).is_ok());
}

// The fixed RFC 1951 table is feasible, so the fixed decoder always
// builds.
#[test]
fn test_fixed_tree_always_builds() {
    assert!(HuffmanNode::fixed().is_ok());
}

// A run-length list expands to the same decoder as the flat lengths.
#[test]
fn test_from_range_matches_flat_lengths() {
    let mut ranges: Vec<HuffmanRange> = Vec::new();
    ranges.push(HuffmanRange { end: 0, bit_length: 1 });
    ranges.push(HuffmanRange { end: 1, bit_length: 2 });
    ranges.push(HuffmanRange { end: 3, bit_length: 3 });
    let via_ranges = HuffmanNode::from_range(&ranges).unwrap();
    let via_lengths = HuffmanNode::from_code_lengths(&vec![1, 2, 3, 3]).unwrap();
    assert_eq!(via_ranges, via_lengths);
    assert_eq!(via_ranges.decode(&to_bits(0b0, 1)), Some(0));
    assert_eq!(via_ranges.decode(&to_bits(0b10, 2)), Some(1));
    assert_eq!(via_ranges.decode(&to_bits(0b110, 3)), Some(2));
    assert_eq!(via_ranges.decode(&to_bits(0b111, 3)), Some(3));
    assert_eq!(via_ranges.decode(&to_bits(0b11, 2)), None);
}

// The transmitted meta-lengths land on the permuted meta-alphabet.
#[test]
fn test_from_header_code_keys() {
    let keys = vec![1u8, 0, 0, 2, 0, 0, 0, 2];
    let ranges = HuffmanRange::from_header_code_keys(&keys);
    // keys go to meta-symbols 16, 17, 18, 0, 8, 7, 9, 6 in that order
    let root = HuffmanNode::from_range(&ranges).unwrap();
    assert_eq!(root.decode(&to_bits(0b10, 2)), Some(0));
    assert_eq!(root.decode(&to_bits(0b11, 2)), Some(6));
    assert_eq!(root.decode(&to_bits(0b0, 1)), Some(16));
}
