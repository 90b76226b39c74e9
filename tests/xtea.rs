use std::str;

use xtea::{Endian, XTEA};

#[test]
fn overflow() {
    let xtea = XTEA::new([0xffffffff; 4]);
    let input = [1234u32, 5678u32];

    let encrypted = {
        let mut output = [0u32; 2];
        xtea.encipher(&input, &mut output);
        output
    };
    let decrypted = {
        let mut output = [0u32; 2];
        xtea.decipher(&encrypted, &mut output);
        output
    };
    assert_eq!(input, decrypted);
}

#[test]
fn u8_slice() {
    let input = b"Hello. Performing a test here.00";

    let xtea = XTEA::new([0x1380C5B5, 0x28037DF9, 0x26E314A2, 0xC57684E4]);

    let encrypted = {
        let mut output = [0; 32];
        xtea.encipher_u8slice(Endian::Big, input, &mut output);
        output
    };

    let decrypted = {
        let mut output = [0; 32];
        xtea.decipher_u8slice(Endian::Big, &encrypted, &mut output);
        output
    };
    println!("Decryted: {}", str::from_utf8(&decrypted[..]).unwrap());
    assert_eq!(input, &decrypted);
}

#[test]
fn boxed_slice() {
    let input: Box<[u8]> = vec![10u8; 16].into_boxed_slice();

    let xtea = XTEA::new([0x1380C5B5, 0x28037DF9, 0x26E314A2, 0xC57684E4]);

    let encrypted = {
        let mut output = vec![0u8; input.len()].into_boxed_slice();
        xtea.encipher_u8slice(Endian::Big, &input, &mut output);
        output
    };

    let decrypted = {
        let mut output = vec![0u8; input.len()].into_boxed_slice();
        xtea.decipher_u8slice(Endian::Big, &encrypted, &mut output);
        output
    };

    println!("Decryted: {:?}", &decrypted);
    assert_eq!(input, decrypted);
}
