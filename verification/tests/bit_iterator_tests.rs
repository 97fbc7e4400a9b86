//! The bit reader's behaviour on concrete byte sequences.

use gziprust::bit_iterator::BitIterator;
use gziprust::bit_iterator::byte_to_bits;

#[test]
fn test_read_bits_inv_to_expected_file() {
    let bytes = vec![0xbd, 0x1b, 0xfd, 0x6f, 0xda];
    let mut iter = BitIterator::new(bytes);
    assert_eq!(iter.read_bits_inv(1), 1);
    assert_eq!(iter.read_bits_inv(2), 2);
    assert_eq!(iter.read_bits_inv(5), 23);
    assert_eq!(iter.read_bits_inv(5), 27);
    assert_eq!(iter.read_bits_inv(4), 8);
}

#[test]
fn bit_iterator_test_read_bits_inv_to_expected_file() {
    let bytes = vec![0xbd, 0x1b, 0xfd, 0x6f, 0xda];
    let mut iter = BitIterator::new(bytes);
    assert_eq!(iter.read_bits_inv(1), 1);
    assert_eq!(iter.read_bits_inv(2), 2);
    assert_eq!(iter.read_bits_inv(5), 23);
    assert_eq!(iter.read_bits_inv(5), 27);
    assert_eq!(iter.read_bits_inv(4), 8);
}

#[test]
fn test_read_bits_inv() {
    let bytes = vec![0b0001_1000];
    let mut iter = BitIterator::new(bytes);
    assert_eq!(iter.read_bits_inv(4), 8);
    assert_eq!(iter.read_bits_inv(4), 1);

    let bytes = vec![0b0101_1101];
    let mut iter = BitIterator::new(bytes);
    assert_eq!(iter.read_bits_inv(5), 0b11101);
    assert_eq!(iter.read_bits_inv(3), 0b010);

    let bytes = vec![0b1];
    let mut iter = BitIterator::new(bytes);
    assert_eq!(iter.read_bits_inv(1), 1);

    let bytes = vec![0b0];
    let mut iter = BitIterator::new(bytes);
    assert_eq!(iter.read_bits_inv(1), 0);
}

#[test]
fn bit_iterator_test_read_bits_inv() {
    let bytes = vec![0b0001_1000];
    let mut iter = BitIterator::new(bytes);
    assert_eq!(iter.read_bits_inv(4), 8);
    assert_eq!(iter.read_bits_inv(4), 1);

    let bytes = vec![0b0101_1101];
    let mut iter = BitIterator::new(bytes);
    assert_eq!(iter.read_bits_inv(5), 0b11101);
    assert_eq!(iter.read_bits_inv(3), 0b010);

    let bytes = vec![0b1];
    let mut iter = BitIterator::new(bytes);
    assert_eq!(iter.read_bits_inv(1), 1);

    let bytes = vec![0b0];
    let mut iter = BitIterator::new(bytes);
    assert_eq!(iter.read_bits_inv(1), 0);
}

#[test]
fn test_read_bits() {
    let bytes = vec![0b0001_1000];
    let mut iter = BitIterator::new(bytes);
    assert_eq!(iter.read_bits(4), 1);
    assert_eq!(iter.read_bits(4), 8);

    let bytes = vec![0b1101_1101];
    let mut iter = BitIterator::new(bytes);
    assert_eq!(iter.read_bits(5), 0b10111);
    assert_eq!(iter.read_bits(3), 0b011);

    let bytes = vec![0b1];
    let mut iter = BitIterator::new(bytes);
    assert_eq!(iter.read_bits_inv(1), 1);

    let bytes = vec![0b0];
    let mut iter = BitIterator::new(bytes);
    assert_eq!(iter.read_bits_inv(1), 0);
}

#[test]
fn bit_iterator_test_read_bits() {
    let bytes = vec![0b0001_1000];
    let mut iter = BitIterator::new(bytes);
    assert_eq!(iter.read_bits(4), 1);
    assert_eq!(iter.read_bits(4), 8);

    let bytes = vec![0b1101_1101];
    let mut iter = BitIterator::new(bytes);
    assert_eq!(iter.read_bits(5), 0b10111);
    assert_eq!(iter.read_bits(3), 0b011);

    let bytes = vec![0b1];
    let mut iter = BitIterator::new(bytes);
    assert_eq!(iter.read_bits_inv(1), 1);

    let bytes = vec![0b0];
    let mut iter = BitIterator::new(bytes);
    assert_eq!(iter.read_bits_inv(1), 0);
}

#[test]
fn test_byte_to_bits() {
    let byte = 0;
    assert_eq!(
        byte_to_bits(byte),
        [false, false, false, false, false, false, false, false]
    );

    let byte = 1;
    assert_eq!(
        byte_to_bits(byte),
        [false, false, false, false, false, false, false, true]
    );

    let byte = 0b1111_1111;
    assert_eq!(
        byte_to_bits(byte),
        [true, true, true, true, true, true, true, true]
    );

    let byte = 0b1010_0101;
    assert_eq!(
        byte_to_bits(byte),
        [true, false, true, false, false, true, false, true]
    );
}

#[test]
fn bit_iterator_test_byte_to_bits() {
    let byte = 0;
    assert_eq!(
        byte_to_bits(byte),
        [false, false, false, false, false, false, false, false]
    );

    let byte = 1;
    assert_eq!(
        byte_to_bits(byte),
        [false, false, false, false, false, false, false, true]
    );

    let byte = 0b1111_1111;
    assert_eq!(
        byte_to_bits(byte),
        [true, true, true, true, true, true, true, true]
    );

    let byte = 0b1010_0101;
    assert_eq!(
        byte_to_bits(byte),
        [true, false, true, false, false, true, false, true]
    );
}

// Splitting one LSB-first read into two reads the same bits as sub-fields.
#[test]
fn test_read_bits_inv_split() {
    let full = {
        let mut iter = BitIterator::new(vec![0b0101_1101]);
        iter.read_bits_inv(8)
    };
    let mut iter = BitIterator::new(vec![0b0101_1101]);
    let low = iter.read_bits_inv(3);
    let high = iter.read_bits_inv(5);
    assert_eq!(low + (high << 3), full);
    assert_eq!(full, 0b0101_1101);
}

// Discarding to the byte boundary is idempotent and a no-op when aligned.
#[test]
fn test_discard_extra_bits_idempotent() {
    let mut iter = BitIterator::new(vec![0xbd, 0x1b]);
    assert_eq!(iter.remaining(), 16);
    iter.discard_extra_bits();
    assert_eq!(iter.remaining(), 16);
    iter.read_bits_inv(3);
    iter.discard_extra_bits();
    assert_eq!(iter.remaining(), 8);
    iter.discard_extra_bits();
    assert_eq!(iter.remaining(), 8);
    assert_eq!(iter.read_bits_inv(8), 0x1b);
}

// Every bit read lands in the trace buffer until it is flushed.
#[test]
fn test_flush_buffer() {
    let mut iter = BitIterator::new(vec![0b0000_0101]);
    iter.read_bits_inv(3);
    let flushed = iter.flush_buffer();
    assert_eq!(flushed, vec![true, false, true]);
    let empty = iter.flush_buffer();
    assert_eq!(empty, Vec::<bool>::new());
}

// The debug rendering shows the current byte MSB-first with a marker
// before the next bit to be read.
#[test]
fn test_debug_rendering() {
    let mut iter = BitIterator::new(vec![0xbd]);
    iter.read_bits_inv(2);
    assert_eq!(
        iter.debug(),
        vec!['1', '0', '1', '1', '1', '1', '<', '0', '1']
    );
    iter.read_bits_inv(6);
    assert_eq!(iter.debug(), Vec::<char>::new());
}
