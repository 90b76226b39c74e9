use xtea::{decode_word, encode_word, Endian, XTEA, DEFAULT_ROUNDS};

fn encipher_block(x: &XTEA, input: [u32; 2]) -> [u32; 2] {
    let mut out = [0u32; 2];
    x.encipher(&input, &mut out);
    out
}

fn decipher_block(x: &XTEA, input: [u32; 2]) -> [u32; 2] {
    let mut out = [0u32; 2];
    x.decipher(&input, &mut out);
    out
}

const KEYS: [[u32; 4]; 3] = [
    [0, 0, 0, 0],
    [0xffffffff, 0xffffffff, 0xffffffff, 0xffffffff],
    [0x1380C5B5, 0x28037DF9, 0x26E314A2, 0xC57684E4],
];

const BLOCKS: [[u32; 2]; 5] = [
    [0, 0],
    [0xffffffff, 0xffffffff],
    [1234, 5678],
    [0x80000000, 0x7fffffff],
    [0xdeadbeef, 0x01234567],
];

#[test]
fn block_round_trip_for_several_round_counts() {
    for key in KEYS {
        for rounds in [0u32, 2, 4, 32, 64] {
            let x = XTEA::new_with_rounds(key, rounds);
            for block in BLOCKS {
                let enc = encipher_block(&x, block);
                assert_eq!(decipher_block(&x, enc), block);
            }
        }
    }
}

#[test]
fn zero_rounds_is_identity() {
    let x = XTEA::new_with_rounds([1, 2, 3, 4], 0);
    assert_eq!(encipher_block(&x, [7, 9]), [7, 9]);
    assert_eq!(decipher_block(&x, [7, 9]), [7, 9]);
}

#[test]
fn default_rounds_is_thirty_two() {
    assert_eq!(DEFAULT_ROUNDS, 32);
    let a = XTEA::new([5, 6, 7, 8]);
    let b = XTEA::new_with_rounds([5, 6, 7, 8], 32);
    assert_eq!(encipher_block(&a, [11, 12]), encipher_block(&b, [11, 12]));
}

#[test]
fn known_vector_counting_key() {
    let x = XTEA::new([0x00010203, 0x04050607, 0x08090a0b, 0x0c0d0e0f]);
    assert_eq!(encipher_block(&x, [0x41424344, 0x45464748]), [0x497df3d0, 0x72612cb5]);
    assert_eq!(decipher_block(&x, [0x497df3d0, 0x72612cb5]), [0x41424344, 0x45464748]);
}

#[test]
fn known_vector_zero_key() {
    let x = XTEA::new([0, 0, 0, 0]);
    assert_eq!(encipher_block(&x, [0x41424344, 0x45464748]), [0xa0390589, 0xf8b8efa5]);
}

#[test]
fn enciphering_changes_the_block() {
    let x = XTEA::new([0x1380C5B5, 0x28037DF9, 0x26E314A2, 0xC57684E4]);
    assert_ne!(encipher_block(&x, [1234, 5678]), [1234, 5678]);
    assert_ne!(decipher_block(&x, [1234, 5678]), [1234, 5678]);
}

#[test]
fn words_in_both_byte_orders() {
    assert_eq!(encode_word(Endian::Big, 0x01020304), [1, 2, 3, 4]);
    assert_eq!(encode_word(Endian::Little, 0x01020304), [4, 3, 2, 1]);
    assert_eq!(decode_word(Endian::Big, &[1, 2, 3, 4]), 0x01020304);
    assert_eq!(decode_word(Endian::Little, &[1, 2, 3, 4]), 0x04030201);
}

#[test]
fn buffer_uses_the_byte_order() {
    let x = XTEA::new([0x00010203, 0x04050607, 0x08090a0b, 0x0c0d0e0f]);
    let input = [0x41u8, 0x42, 0x43, 0x44, 0x45, 0x46, 0x47, 0x48];
    let mut out = [0u8; 8];
    x.encipher_u8slice(Endian::Big, &input, &mut out);
    assert_eq!(out, [0x49, 0x7d, 0xf3, 0xd0, 0x72, 0x61, 0x2c, 0xb5]);

    let le_input = [0x44u8, 0x43, 0x42, 0x41, 0x48, 0x47, 0x46, 0x45];
    let mut le_out = [0u8; 8];
    x.encipher_u8slice(Endian::Little, &le_input, &mut le_out);
    assert_eq!(le_out, [0xd0, 0xf3, 0x7d, 0x49, 0xb5, 0x2c, 0x61, 0x72]);
}

#[test]
fn buffer_blocks_are_independent() {
    let x = XTEA::new([9, 8, 7, 6]);
    let input = [3u8; 24];
    let mut out = [0u8; 24];
    x.encipher_u8slice(Endian::Big, &input, &mut out);
    assert_eq!(out[0..8], out[8..16]);
    assert_eq!(out[8..16], out[16..24]);
}

#[test]
fn buffer_round_trip_both_orders() {
    let x = XTEA::new_with_rounds([0xdeadbeef, 0, 0xffffffff, 42], 64);
    let input: Vec<u8> = (0..64u32).map(|i| (i * 37 + 11) as u8).collect();
    for order in [Endian::Big, Endian::Little] {
        let mut enc = vec![0u8; input.len()];
        x.encipher_u8slice(order, &input, &mut enc);
        assert_ne!(enc, input);
        let mut dec = vec![0u8; input.len()];
        x.decipher_u8slice(order, &enc, &mut dec);
        assert_eq!(dec, input);
    }
}

#[test]
fn empty_buffer_is_left_empty() {
    let x = XTEA::new([1, 2, 3, 4]);
    let input: [u8; 0] = [];
    let mut out: [u8; 0] = [];
    x.encipher_u8slice(Endian::Big, &input, &mut out);
    assert_eq!(out.len(), 0);
}
