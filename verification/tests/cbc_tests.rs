use aes::{Aes128, BlockDecrypt, BlockEncrypt, NewBlockCipher};
use cryptopals::aes_cbc::decrypt;
use cryptopals::aes_cbc::encrypt;

const KEY: &[u8; 16] = b"YELLOW SUBMARINE";
const IV: &[u8; 16] = &[0u8; 16];

#[test]
fn test_cbc_round_trip_aligned() {
    let plaintext = b"EXACTLY 16 BYTESand sixteen more";
    let ciphertext = encrypt(KEY, IV, plaintext);
    assert_eq!(ciphertext.len(), plaintext.len());
    let decrypted = decrypt(KEY, IV, &ciphertext);
    assert_eq!(decrypted, plaintext);
}

#[test]
fn test_cbc_round_trip_keeps_padding() {
    // 20 bytes: padded to 32; decrypt never strips, so the 12 pad bytes
    // (each holding 12) come back verbatim.
    let plaintext = b"twenty bytes of text";
    let ciphertext = encrypt(KEY, IV, plaintext);
    assert_eq!(ciphertext.len(), 32);
    let decrypted = decrypt(KEY, IV, &ciphertext);
    assert_eq!(&decrypted[..20], plaintext);
    assert_eq!(&decrypted[20..], &[12u8; 12]);
}

#[test]
fn test_cbc_empty() {
    assert_eq!(encrypt(KEY, IV, &[]), Vec::<u8>::new());
    assert_eq!(decrypt(KEY, IV, &[]), Vec::<u8>::new());
}

#[test]
fn test_cbc_single_block_matches_cipher() {
    // One aligned block: CBC must equal the raw block cipher applied to the
    // block XORed with the IV.
    let iv: [u8; 16] = *b"0123456789abcdef";
    let plaintext = *b"ATTACK AT DAWN!!";
    let ciphertext = encrypt(KEY, &iv, &plaintext);

    let cipher = Aes128::new(KEY.into());
    let mut expected = aes::Block::default();
    for i in 0..16 {
        expected[i] = plaintext[i] ^ iv[i];
    }
    cipher.encrypt_block(&mut expected);
    assert_eq!(ciphertext.as_slice(), expected.as_slice());
}

#[test]
fn test_cbc_decrypt_single_block_matches_cipher() {
    let iv: [u8; 16] = *b"fedcba9876543210";
    let ciphertext = *b"sixteen raw byte";
    let decrypted = decrypt(KEY, &iv, &ciphertext);

    let cipher = Aes128::new(KEY.into());
    let mut block = aes::Block::clone_from_slice(&ciphertext);
    cipher.decrypt_block(&mut block);
    let expected: Vec<u8> = block.iter().zip(iv.iter()).map(|(b, v)| b ^ v).collect();
    assert_eq!(decrypted, expected);
}

#[test]
fn test_cbc_chains_blocks() {
    // With a two-block message, the second ciphertext block must depend on
    // the first: flipping a byte in the first plaintext block changes both
    // output blocks.
    let p1 = *b"AAAAAAAAAAAAAAAABBBBBBBBBBBBBBBB";
    let mut p2 = p1;
    p2[0] ^= 1;
    let c1 = encrypt(KEY, IV, &p1);
    let c2 = encrypt(KEY, IV, &p2);
    assert_ne!(&c1[0..16], &c2[0..16]);
    assert_ne!(&c1[16..32], &c2[16..32]);
}

#[test]
fn test_cbc_unaligned_length_is_next_multiple() {
    for n in [1usize, 7, 15, 17, 31] {
        let plaintext = vec![b'x'; n];
        let ciphertext = encrypt(KEY, IV, &plaintext);
        assert_eq!(ciphertext.len(), ((n / 16) + 1) * 16);
    }
}
