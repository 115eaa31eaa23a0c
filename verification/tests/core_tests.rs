use cryptopals::cos_sim::CharFreq;
use cryptopals::cos_sim::CharFreqError;
use cryptopals::io_utils::strip_newlines;
use cryptopals::brute_force_single_byte_xor;
use cryptopals::estimate_key_length;
use cryptopals::hamming_distance;
use cryptopals::pkcs7_pad;
use cryptopals::repeating_key_xor;
use cryptopals::solve_repeating_key_xor;
use cryptopals::HammingError;

const TEST_VEC: &str = "Burning 'em, if you ain't quick and nimble\nI go crazy when I hear a cymbal";
const TEST_KEY: &str = "ICE";
const TEST_VEC_CIPHER_HEX: &str = "0b3637272a2b2e63622c2e69692a23693a2a3c6324202d623d63343c2a26226324272765272a282b2f20430a652e2c652a3124333a653e2b2027630c692b20283165286326302e27282f";

const LONG_TEXT: &str = "The quiet keeper of the lighthouse wrote long letters every evening, \
noting the wind, the tide, and the slow turning of the lamp. Ships passed in the dark and \
answered with small lights of their own, and the keeper counted them one by one until the \
morning came. On calm days he walked the shore and gathered what the sea had left behind, \
bits of rope and glass and wood worn smooth, and he set them on the sill where the sun could \
find them. The work was plain and the hours were long, but the light never failed, and the \
ships came home.";

#[test]
fn test_repeating_key_xor() {
    let ciphertext = repeating_key_xor(TEST_VEC.as_bytes(), TEST_KEY.as_bytes());
    let expected = hex::decode(TEST_VEC_CIPHER_HEX).unwrap();
    assert_eq!(ciphertext.len(), expected.len());
    assert_eq!(ciphertext, expected);
}

#[test]
fn test_hamming() {
    let a = "this is a test";
    let b = "wokka wokka!!!";
    assert_eq!(hamming_distance(a.as_bytes(), b.as_bytes()).unwrap(), 37);
}

#[test]
fn test_pkcs7_pad() {
    let mut input: Vec<u8> = Vec::from(b"YELLOW SUBMARINE".to_owned());
    pkcs7_pad(&mut input, 20);
    assert_eq!(input, b"YELLOW SUBMARINE\x04\x04\x04\x04");
}

const NO_NEWLINE: &str = "there is no newline here";

#[test]
fn test_no_newline() {
    let out = strip_newlines(NO_NEWLINE.as_bytes());
    assert_eq!(out.len(), NO_NEWLINE.len());
    assert_eq!(out, NO_NEWLINE.as_bytes());
}

const MIDDLE_NEWLINE: &str = "there is a\nnewline in the middle";
const MIDDLE_NEWLINE_SKIPPED: &str = "there is anewline in the middle";

#[test]
fn test_middle_newline() {
    let out = strip_newlines(MIDDLE_NEWLINE.as_bytes());
    assert_eq!(out.len(), MIDDLE_NEWLINE_SKIPPED.len());
    assert_eq!(out, MIDDLE_NEWLINE_SKIPPED.as_bytes());
}

const TRAILING_NEWLINE: &str = "there is a newline at the end\n";
const TRAILING_NEWLINE_SKIPPED: &str = "there is a newline at the end";

#[test]
fn test_trailing_newline() {
    let out = strip_newlines(TRAILING_NEWLINE.as_bytes());
    assert_eq!(out.len(), TRAILING_NEWLINE_SKIPPED.len());
    assert_eq!(out, TRAILING_NEWLINE_SKIPPED.as_bytes());
}

#[test]
fn test_repeating_key_xor_involution() {
    let key = b"MAGIC";
    let once = repeating_key_xor(LONG_TEXT.as_bytes(), key);
    let twice = repeating_key_xor(&once, key);
    assert_eq!(twice, LONG_TEXT.as_bytes());
}

#[test]
fn test_hamming_symmetric_and_zero() {
    let a = b"some bytes here";
    let b = b"other bytes too";
    assert_eq!(
        hamming_distance(a, b).unwrap(),
        hamming_distance(b, a).unwrap()
    );
    assert_eq!(hamming_distance(a, a).unwrap(), 0);
}

#[test]
fn test_hamming_length_mismatch() {
    let r = hamming_distance(b"short", b"longer input");
    assert!(matches!(r, Err(HammingError::DifferentLengthArgs)));
}

#[test]
fn test_from_str_folds_case() {
    // 'a' and 'A' land in the same slot, so the magnitude is 2 * 2 = 4.
    let f = CharFreq::from_str(b"aA").unwrap();
    assert_eq!(f.total(), 2);
    assert_eq!(f.magnitude(), 4);
    // 'a' and 'B' land in different slots: 1 + 1 = 2.
    let g = CharFreq::from_str(b"aB").unwrap();
    assert_eq!(g.total(), 2);
    assert_eq!(g.magnitude(), 2);
}

#[test]
fn test_from_str_rejects_control_byte() {
    let r = CharFreq::from_str(&[b'H', b'i', 0x01]);
    assert!(matches!(r, Err(CharFreqError::InvalidChar(0x01))));
}

#[test]
fn test_from_reference_corpus_counts() {
    // Counts 3 of 'A' and 1 of 'B': total 4, magnitude 9 + 1 = 10.
    let pairs = [(b'A', 3u64), (b'B', 1u64)];
    let f = CharFreq::from_reference_corpus(&pairs).unwrap();
    assert_eq!(f.total(), 4);
    assert_eq!(f.magnitude(), 10);
}

#[test]
fn test_from_reference_corpus_rejects_lowercase() {
    // The corpus form takes bytes as they stand: lowercase is outside the alphabet.
    let pairs = [(b'A', 3u64), (b'a', 1u64)];
    let r = CharFreq::from_reference_corpus(&pairs);
    assert!(matches!(r, Err(CharFreqError::InvalidChar(97))));
}

#[test]
fn test_similarity_self_maximal() {
    // Cosine-style similarity over frequency vectors, computed from the
    // exact integer data the profiles expose; a profile compared against
    // itself scores at least as high as clearly different texts do.
    let reference = CharFreq::from_str(LONG_TEXT.as_bytes()).unwrap();
    let same = CharFreq::from_str(LONG_TEXT.as_bytes()).unwrap();
    let different = CharFreq::from_str(b"zzzzqqqqjjjjxxxx").unwrap();
    let digits = CharFreq::from_str(b"0123456789 0123456789").unwrap();
    let sim = |a: &CharFreq, r: &CharFreq| -> f64 {
        (a.dot(r) as f64) * (a.total() as f64) * (r.total() as f64)
            / ((a.magnitude() as f64) * (r.magnitude() as f64))
    };
    let self_sim = sim(&same, &reference);
    assert!(self_sim >= sim(&different, &reference) - 1e-9);
    assert!(self_sim >= sim(&digits, &reference) - 1e-9);
}

#[test]
fn test_brute_force_finds_key() {
    let reference = CharFreq::from_str(LONG_TEXT.as_bytes()).unwrap();
    let plain = b"The lamp turned slowly and the ships came home.";
    let key: u8 = 0x58;
    let ciphertext: Vec<u8> = plain.iter().map(|b| b ^ key).collect();
    let results = brute_force_single_byte_xor(&ciphertext, &reference);
    let hit = results.iter().find(|r| r.key == key).expect("key must be among candidates");
    assert!(!hit.plaintext.is_empty());
    assert_eq!(hit.plaintext, plain);
}

#[test]
fn test_brute_force_keys_ascend() {
    let reference = CharFreq::from_str(LONG_TEXT.as_bytes()).unwrap();
    let results = brute_force_single_byte_xor(b"GGGGGGGG", &reference);
    assert!(!results.is_empty());
    for w in results.windows(2) {
        assert!(w[0].key < w[1].key);
    }
}

#[test]
fn test_estimate_key_length_ranks_true_length() {
    let key = b"MAGIC";
    let ciphertext = repeating_key_xor(LONG_TEXT.as_bytes(), key);
    let scores = estimate_key_length(&ciphertext, 2, 10);
    assert_eq!(scores.len(), 9);
    let rank = scores.iter().position(|&(l, _)| l == key.len()).unwrap();
    assert!(rank < 3, "true key length ranked {} in {:?}", rank, scores);
}

#[test]
fn test_estimate_key_length_sorted() {
    let ciphertext = repeating_key_xor(LONG_TEXT.as_bytes(), b"ICE");
    let scores = estimate_key_length(&ciphertext, 2, 8);
    for w in scores.windows(2) {
        let (l1, d1) = w[0];
        let (l2, d2) = w[1];
        assert!(
            (d1 as u128) * (l2 as u128) < (d2 as u128) * (l1 as u128)
                || ((d1 as u128) * (l2 as u128) == (d2 as u128) * (l1 as u128) && l1 <= l2)
        );
    }
}

#[test]
fn test_solve_repeating_key_xor_recovers_key() {
    let reference = CharFreq::from_str(LONG_TEXT.as_bytes()).unwrap();
    let ciphertext = repeating_key_xor(LONG_TEXT.as_bytes(), TEST_KEY.as_bytes());
    let key = solve_repeating_key_xor(&ciphertext, TEST_KEY.len(), &reference)
        .expect("every column must have a viable key");
    assert_eq!(key, TEST_KEY.as_bytes());
    let plain = repeating_key_xor(&ciphertext, &key);
    assert_eq!(plain, LONG_TEXT.as_bytes());
}

#[test]
fn test_solve_reports_blocked_column() {
    // A column whose bytes decode to no scoreable text under any key byte:
    // 0x00 and 0xFF differ in every bit, so no single XOR key maps both
    // into the 97 allowed byte values' span in a scoreable way.
    let reference = CharFreq::from_str(LONG_TEXT.as_bytes()).unwrap();
    let ciphertext = vec![0x00u8, 0x00, 0xFF, 0x80, 0x00, 0x07];
    let r = solve_repeating_key_xor(&ciphertext, 2, &reference);
    assert!(r.is_none());
}
