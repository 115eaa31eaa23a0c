pub mod aes_cbc;
pub mod cos_sim;
pub mod io_utils;

use vstd::prelude::*;

verus! {

use vstd::arithmetic::div_mod::lemma_fundamental_div_mod;
use vstd::arithmetic::div_mod::lemma_fundamental_div_mod_converse;
use vstd::slice::slice_subrange;
use crate::cos_sim::CharFreq;
use crate::cos_sim::counts_of_text;
use crate::cos_sim::sum_ints;
use crate::cos_sim::valid_text;

// ---------------------------------------------------------------------------
// Single-byte and repeating-key XOR
// ---------------------------------------------------------------------------

/// Bytewise XOR of a buffer with a single key byte.
pub open spec fn xor_with_byte(s: Seq<u8>, key: u8) -> Seq<u8> {
    Seq::new(s.len(), |i: int| s[i] ^ key)
}

fn xor(in_bytes: &[u8], key: u8) -> (r: Vec<u8>)
    ensures
        r@ == xor_with_byte(in_bytes@, key),
{
    let mut out: Vec<u8> = Vec::new();
    let mut i: usize = 0;
    while i < in_bytes.len()
        invariant
            i <= in_bytes.len(),
            out@ == xor_with_byte(in_bytes@, key).take(i as int),
        decreases in_bytes.len() - i,
    {
        out.push(in_bytes[i] ^ key);
        i = i + 1;
        assert(out@ =~= xor_with_byte(in_bytes@, key).take(i as int));
    }
    assert(out@ =~= xor_with_byte(in_bytes@, key));
    out
}

/// XOR of a buffer with a key cycled over it: byte `i` of the result is
/// `s[i] ^ key[i % key.len()]`. An empty key yields an empty result, as
/// cycling an empty key produces no key stream at all.
pub open spec fn repeating_key_xor_spec(s: Seq<u8>, key: Seq<u8>) -> Seq<u8> {
    if key.len() == 0 {
        Seq::<u8>::empty()
    } else {
        Seq::new(s.len(), |i: int| s[i] ^ key[i % (key.len() as int)])
    }
}

pub fn repeating_key_xor(plaintext: &[u8], key: &[u8]) -> (r: Vec<u8>)
    requires
        key@.len() < plaintext@.len(),
    ensures
        r@ == repeating_key_xor_spec(plaintext@, key@),
{
    let mut out: Vec<u8> = Vec::new();
    if key.len() == 0 {
        assert(out@ =~= repeating_key_xor_spec(plaintext@, key@));
        return out;
    }
    let n = key.len();
    let mut i: usize = 0;
    let mut j: usize = 0;
    while i < plaintext.len()
        invariant
            0 < n == key@.len() < plaintext@.len(),
            i <= plaintext@.len(),
            j == i as int % n as int,
            out@ == repeating_key_xor_spec(plaintext@, key@).take(i as int),
        decreases plaintext.len() - i,
    {
        out.push(plaintext[i] ^ key[j]);
        proof {
            let ni = n as int;
            lemma_fundamental_div_mod(i as int, ni);
            let q = i as int / ni;
            assert((q + 1) * ni == q * ni + ni) by (nonlinear_arith);
            if j + 1 < n {
                lemma_fundamental_div_mod_converse(i as int + 1, ni, q, j as int + 1);
            } else {
                lemma_fundamental_div_mod_converse(i as int + 1, ni, q + 1, 0);
            }
        }
        i = i + 1;
        j = if j + 1 == n { 0 } else { j + 1 };
        assert(out@ =~= repeating_key_xor_spec(plaintext@, key@).take(i as int));
    }
    assert(out@ =~= repeating_key_xor_spec(plaintext@, key@));
    out
}

/// Applying repeating-key XOR twice with the same (non-empty) key gives the
/// original buffer back.
pub proof fn lemma_repeating_key_xor_involution(s: Seq<u8>, key: Seq<u8>)
    requires
        key.len() > 0,
    ensures
        repeating_key_xor_spec(repeating_key_xor_spec(s, key), key) == s,
{
    let once = repeating_key_xor_spec(s, key);
    let twice = repeating_key_xor_spec(once, key);
    assert forall|i: int| 0 <= i < s.len() implies twice[i] == s[i] by {
        let x = s[i];
        let y = key[i % (key.len() as int)];
        assert((x ^ y) ^ y == x) by (bit_vector);
    }
    assert(twice =~= s);
}

// ---------------------------------------------------------------------------
// Single-byte XOR brute force
// ---------------------------------------------------------------------------

/// A key byte is viable for a ciphertext when XORing every byte with it
/// yields a text made only of scoreable characters.
pub open spec fn valid_key(ct: Seq<u8>, key: u8) -> bool {
    valid_text(xor_with_byte(ct, key))
}

/// One viable decryption: the key byte, the decoded text, and its frequency
/// profile (which carries the data every similarity comparison needs).
pub struct BruteForceResult {
    pub key: u8,
    pub plaintext: Vec<u8>,
    pub freq: CharFreq,
}

pub open spec fn candidate_ok(ct: Seq<u8>, c: BruteForceResult) -> bool {
    &&& valid_key(ct, c.key)
    &&& c.plaintext@ == xor_with_byte(ct, c.key)
    &&& c.freq.wf()
    &&& c.freq@ == counts_of_text(xor_with_byte(ct, c.key))
    &&& sum_ints(c.freq@) == ct.len()
}

/// Tries all 256 key bytes against the ciphertext and returns one candidate
/// for every key whose decryption scores as text, in ascending key order.
/// Ranking the candidates is the caller's job.
pub fn brute_force_single_byte_xor(ciphertext: &[u8], reference_freqs: &CharFreq) -> (r: Vec<
    BruteForceResult,
>)
    requires
        ciphertext@.len() <= u32::MAX,
    ensures
        forall|i: int| 0 <= i < r@.len() ==> candidate_ok(ciphertext@, #[trigger] r@[i]),
        forall|i: int, j: int| 0 <= i < j < r@.len() ==> r@[i].key < r@[j].key,
        forall|k: u8|
            valid_key(ciphertext@, k) ==> exists|i: int|
                0 <= i < r@.len() && (#[trigger] r@[i]).key == k,
{
    let mut results: Vec<BruteForceResult> = Vec::new();
    let mut kk: usize = 0;
    while kk < 256
        invariant
            kk <= 256,
            ciphertext@.len() <= u32::MAX,
            forall|i: int|
                0 <= i < results@.len() ==> candidate_ok(ciphertext@, #[trigger] results@[i]),
            forall|i: int| 0 <= i < results@.len() ==> (#[trigger] results@[i]).key < kk,
            forall|i: int, j: int| 0 <= i < j < results@.len() ==> results@[i].key < results@[j].key,
            forall|k: u8|
                k < kk && valid_key(ciphertext@, k) ==> exists|i: int|
                    0 <= i < results@.len() && (#[trigger] results@[i]).key == k,
        decreases 256 - kk,
    {
        let key = kk as u8;
        let candidate = xor(ciphertext, key);
        match CharFreq::from_str(candidate.as_slice()) {
            Ok(freq) => {
                let ghost old_results = results@;
                results.push(BruteForceResult { key, plaintext: candidate, freq });
                proof {
                    assert(results@[results@.len() - 1].key == key);
                    assert(forall|i: int|
                        0 <= i < old_results.len() ==> results@[i] == old_results[i]);
                }
            },
            Err(_) => {},
        }
        kk = kk + 1;
    }
    results
}

/// A ciphertext made by XORing a scoreable text with any key byte has that
/// key byte among the viable keys, and decoding with it gives the text back.
pub proof fn lemma_breaker_finds_key(p: Seq<u8>, k: u8)
    requires
        valid_text(p),
    ensures
        valid_key(xor_with_byte(p, k), k),
        xor_with_byte(xor_with_byte(p, k), k) == p,
{
    let ct = xor_with_byte(p, k);
    assert forall|i: int| 0 <= i < p.len() implies xor_with_byte(ct, k)[i] == p[i] by {
        let x = p[i];
        assert((x ^ k) ^ k == x) by (bit_vector);
    }
    assert(xor_with_byte(ct, k) =~= p);
}

// ---------------------------------------------------------------------------
// Repeating-key XOR solving
// ---------------------------------------------------------------------------

/// How many bytes of the ciphertext land in one column of the transposition.
pub open spec fn column_len(len: int, key_len: int, col: int) -> int {
    if col < len {
        (len - col - 1) / key_len + 1
    } else {
        0
    }
}

/// Column `col` of the ciphertext transposed at `key_len`: the bytes at
/// positions `col`, `col + key_len`, `col + 2 * key_len`, and so on — the
/// bytes a repeating key would XOR with its byte number `col`.
pub open spec fn column_of(ct: Seq<u8>, key_len: int, col: int) -> Seq<u8> {
    Seq::new(column_len(ct.len() as int, key_len, col) as nat, |i: int| ct[col + i * key_len])
}

/// The key byte the solver picks for one column: a viable key whose decoded
/// column scores at least as similar to the reference as every other viable
/// key's, and the smallest such byte when several tie.
pub open spec fn best_key_for(col: Seq<u8>, reference: Seq<int>, k: u8) -> bool {
    &&& valid_key(col, k)
    &&& forall|k2: u8|
        #[trigger] valid_key(col, k2) ==> crate::cos_sim::sim_ge(
            counts_of_text(xor_with_byte(col, k)),
            counts_of_text(xor_with_byte(col, k2)),
            reference,
        )
    &&& forall|k2: u8|
        k2 < k && #[trigger] valid_key(col, k2) ==> !crate::cos_sim::sim_ge(
            counts_of_text(xor_with_byte(col, k2)),
            counts_of_text(xor_with_byte(col, k)),
            reference,
        )
}

fn extract_column(ct: &[u8], key_len: usize, col: usize) -> (r: Vec<u8>)
    requires
        1 <= key_len,
        col < ct@.len(),
    ensures
        r@ == column_of(ct@, key_len as int, col as int),
        1 <= r@.len() <= ct@.len(),
{
    let ct_len = ct.len();
    let mut out: Vec<u8> = Vec::new();
    let mut p: usize = col;
    proof {
        assert(0 * key_len == 0) by (nonlinear_arith);
    }
    while p < ct_len
        invariant
            1 <= key_len,
            col < ct@.len(),
            ct_len == ct@.len(),
            p == col + out@.len() * key_len || (p == ct@.len() && col + out@.len() * key_len
                >= ct@.len()),
            col + out@.len() <= p,
            out@.len() >= 1 ==> col + (out@.len() - 1) * key_len < ct@.len(),
            forall|i: int| 0 <= i < out@.len() ==> col + #[trigger] (i * key_len) < ct@.len(),
            forall|i: int|
                0 <= i < out@.len() ==> #[trigger] out@[i] == ct@[col + i * key_len],
        decreases ct@.len() - p,
    {
        let cur = p;
        let ghost k0 = out@.len() as int;
        let ghost out0 = out@;
        proof {
            assert((k0 + 1) * key_len == k0 * key_len + key_len) by (nonlinear_arith);
            assert(cur == col + k0 * key_len);
        }
        out.push(ct[cur]);
        if key_len < ct_len - cur {
            p = cur + key_len;
        } else {
            p = ct_len;
        }
        proof {
            assert forall|i: int| 0 <= i < out@.len() implies col + i * key_len < ct@.len() && (
            #[trigger] out@[i]) == ct@[col + i * key_len] by {
                if i < k0 {
                    assert(out@[i] == out0[i]);
                } else {
                    assert(i == k0);
                    assert(out@[i] == ct@[cur as int]);
                }
            }
        }
    }
    proof {
        let k = out@.len() as int;
        let kl = key_len as int;
        let len = ct@.len() as int;
        assert(k >= 1);
        assert(col + k * kl >= len);
        assert(k * kl == (k - 1) * kl + kl) by (nonlinear_arith);
        let rem = len - 1 - col - (k - 1) * kl;
        lemma_fundamental_div_mod_converse(len - 1 - col, kl, k - 1, rem);
        assert(column_len(len, kl, col as int) == k);
        assert(out@ =~= column_of(ct@, kl, col as int));
    }
    out
}

/// Of a non-empty candidate list whose profiles were all built from the same
/// non-empty text length, returns the position of the first candidate that
/// scores at least as similar to the reference as every other.
fn best_candidate_index(cands: &Vec<BruteForceResult>, reference: &CharFreq) -> (r: Option<usize>)
    requires
        reference.wf(),
        forall|i: int|
            0 <= i < cands@.len() ==> (#[trigger] cands@[i]).freq.wf() && sum_ints(cands@[i].freq@)
                > 0,
    ensures
        r is Some <==> cands@.len() > 0,
        r is Some ==> 0 <= r->0 < cands@.len() && (forall|j: int|
            0 <= j < cands@.len() ==> crate::cos_sim::sim_ge(
                cands@[r->0 as int].freq@,
                (#[trigger] cands@[j]).freq@,
                reference@,
            )) && (forall|j: int|
            0 <= j < r->0 ==> !crate::cos_sim::sim_ge(
                (#[trigger] cands@[j]).freq@,
                cands@[r->0 as int].freq@,
                reference@,
            )),
{
    if cands.len() == 0 {
        return None;
    }
    let mut best: usize = 0;
    let mut j: usize = 1;
    while j < cands.len()
        invariant
            reference.wf(),
            forall|i: int|
                0 <= i < cands@.len() ==> (#[trigger] cands@[i]).freq.wf() && sum_ints(
                    cands@[i].freq@,
                ) > 0,
            0 <= best < j <= cands@.len(),
            forall|i: int|
                0 <= i < j ==> crate::cos_sim::sim_ge(
                    cands@[best as int].freq@,
                    (#[trigger] cands@[i]).freq@,
                    reference@,
                ),
            forall|i: int|
                0 <= i < best ==> !crate::cos_sim::sim_ge(
                    (#[trigger] cands@[i]).freq@,
                    cands@[best as int].freq@,
                    reference@,
                ),
        decreases cands@.len() - j,
    {
        let is_ge = crate::cos_sim::more_similar(&cands[best].freq, &cands[j].freq, reference);
        if !is_ge {
            proof {
                let ghost old_best = best as int;
                reference.lemma_wf_facts();
                crate::cos_sim::lemma_sim_ge_total(
                    cands@[j as int].freq@,
                    cands@[old_best].freq@,
                    reference@,
                );
                assert forall|i: int| 0 <= i < j + 1 implies crate::cos_sim::sim_ge(
                    cands@[j as int].freq@,
                    (#[trigger] cands@[i]).freq@,
                    reference@,
                ) by {
                    cands@[i].freq.lemma_wf_facts();
                    cands@[old_best].freq.lemma_wf_facts();
                    cands@[j as int].freq.lemma_wf_facts();
                    if i < j {
                        crate::cos_sim::lemma_sim_ge_trans(
                            cands@[j as int].freq@,
                            cands@[old_best].freq@,
                            cands@[i].freq@,
                            reference@,
                        );
                    }
                }
                assert forall|i: int| 0 <= i < j implies !crate::cos_sim::sim_ge(
                    (#[trigger] cands@[i]).freq@,
                    cands@[j as int].freq@,
                    reference@,
                ) by {
                    cands@[i].freq.lemma_wf_facts();
                    cands@[old_best].freq.lemma_wf_facts();
                    cands@[j as int].freq.lemma_wf_facts();
                    if crate::cos_sim::sim_ge(cands@[i].freq@, cands@[j as int].freq@, reference@) {
                        crate::cos_sim::lemma_sim_ge_trans(
                            cands@[old_best].freq@,
                            cands@[i].freq@,
                            cands@[j as int].freq@,
                            reference@,
                        );
                        assert(false);
                    }
                }
            }
            best = j;
        }
        j = j + 1;
    }
    Some(best)
}

/// Recovers a repeating key of the given length: the ciphertext is
/// transposed into `key_length` columns, each column is attacked as
/// single-byte XOR, and each column's best-scoring key byte (the smallest on
/// a tie) becomes one byte of the key. Returns nothing when some column has
/// no viable key byte at all, naming no partial key in that case.
pub fn solve_repeating_key_xor(ciphertext: &[u8], key_length: usize, reference: &CharFreq) -> (r:
    Option<Vec<u8>>)
    requires
        reference.wf(),
        1 <= key_length <= ciphertext@.len(),
        ciphertext@.len() <= u32::MAX,
    ensures
        r is Some ==> (r->0)@.len() == key_length && forall|col: int|
            0 <= col < key_length ==> best_key_for(
                column_of(ciphertext@, key_length as int, col),
                reference@,
                (#[trigger] (r->0)@[col]),
            ),
        r is None ==> exists|col: int|
            0 <= col < key_length && (forall|k: u8|
                !valid_key(#[trigger] column_of(ciphertext@, key_length as int, col), k)),
{
    let mut key: Vec<u8> = Vec::new();
    let mut col: usize = 0;
    while col < key_length
        invariant
            reference.wf(),
            1 <= key_length <= ciphertext@.len(),
            ciphertext@.len() <= u32::MAX,
            key@.len() == col <= key_length,
            forall|c: int|
                0 <= c < col ==> best_key_for(
                    column_of(ciphertext@, key_length as int, c),
                    reference@,
                    (#[trigger] key@[c]),
                ),
        decreases key_length - col,
    {
        let column = extract_column(ciphertext, key_length, col);
        let cands = brute_force_single_byte_xor(column.as_slice(), reference);
        proof {
            assert forall|i: int| 0 <= i < cands@.len() implies (#[trigger] cands@[i]).freq.wf()
                && sum_ints(cands@[i].freq@) > 0 by {
                assert(candidate_ok(column@, cands@[i]));
            }
        }
        match best_candidate_index(&cands, reference) {
            Some(idx) => {
                let kb = cands[idx].key;
                proof {
                    let cseq = column_of(ciphertext@, key_length as int, col as int);
                    let sel = idx as int;
                    assert(candidate_ok(cseq, cands@[sel]));
                    assert forall|k2: u8| #[trigger] valid_key(cseq, k2) implies crate::cos_sim::sim_ge(
                        counts_of_text(xor_with_byte(cseq, kb)),
                        counts_of_text(xor_with_byte(cseq, k2)),
                        reference@,
                    ) by {
                        let wj = choose|wj: int|
                            0 <= wj < cands@.len() && (#[trigger] cands@[wj]).key == k2;
                        assert(candidate_ok(cseq, cands@[wj]));
                    }
                    assert forall|k2: u8|
                        k2 < kb && #[trigger] valid_key(cseq, k2) implies !crate::cos_sim::sim_ge(
                        counts_of_text(xor_with_byte(cseq, k2)),
                        counts_of_text(xor_with_byte(cseq, kb)),
                        reference@,
                    ) by {
                        let wj = choose|wj: int|
                            0 <= wj < cands@.len() && (#[trigger] cands@[wj]).key == k2;
                        assert(candidate_ok(cseq, cands@[wj]));
                        if wj > sel {
                            assert(cands@[sel].key < cands@[wj].key);
                            assert(false);
                        } else if wj == sel {
                            assert(false);
                        }
                    }
                    assert(best_key_for(cseq, reference@, kb));
                }
                key.push(kb);
            },
            None => {
                proof {
                    let cseq = column_of(ciphertext@, key_length as int, col as int);
                    assert forall|k: u8| !valid_key(cseq, k) by {
                        if valid_key(cseq, k) {
                            let wi = choose|wi: int|
                                0 <= wi < cands@.len() && (#[trigger] cands@[wi]).key == k;
                            assert(false);
                        }
                    }
                }
                return None;
            },
        }
        col = col + 1;
    }
    Some(key)
}

// ---------------------------------------------------------------------------
// Hamming (bitwise) distance
// ---------------------------------------------------------------------------

/// The number of set bits in one byte.
pub open spec fn popcount8(b: u8) -> int {
    (b & 1) + ((b >> 1u8) & 1) + ((b >> 2u8) & 1) + ((b >> 3u8) & 1) + ((b >> 4u8) & 1) + ((b
        >> 5u8) & 1) + ((b >> 6u8) & 1) + ((b >> 7u8) & 1)
}

/// The total number of differing bits between two equal-length byte buffers.
pub open spec fn hamming_spec(a: Seq<u8>, b: Seq<u8>) -> int
    recommends
        a.len() == b.len(),
    decreases a.len(),
{
    if a.len() == 0 {
        0
    } else {
        hamming_spec(a.drop_last(), b.drop_last()) + popcount8(a.last() ^ b.last())
    }
}

pub proof fn lemma_popcount8_bounds(b: u8)
    ensures
        0 <= popcount8(b) <= 8,
{
    assert(0 <= popcount8(b) <= 8) by (bit_vector);
}

pub proof fn lemma_hamming_bounds(a: Seq<u8>, b: Seq<u8>)
    ensures
        0 <= hamming_spec(a, b) <= 8 * a.len(),
    decreases a.len(),
{
    if a.len() > 0 {
        lemma_hamming_bounds(a.drop_last(), b.drop_last());
        lemma_popcount8_bounds(a.last() ^ b.last());
    }
}

/// Hamming distance is symmetric.
pub proof fn lemma_hamming_symmetric(a: Seq<u8>, b: Seq<u8>)
    requires
        a.len() == b.len(),
    ensures
        hamming_spec(a, b) == hamming_spec(b, a),
    decreases a.len(),
{
    if a.len() > 0 {
        lemma_hamming_symmetric(a.drop_last(), b.drop_last());
        let x = a.last();
        let y = b.last();
        assert(x ^ y == y ^ x) by (bit_vector);
    }
}

/// Hamming distance of a buffer with itself is zero.
pub proof fn lemma_hamming_self_zero(a: Seq<u8>)
    ensures
        hamming_spec(a, a) == 0,
    decreases a.len(),
{
    if a.len() > 0 {
        lemma_hamming_self_zero(a.drop_last());
        let x = a.last();
        assert(popcount8(x ^ x) == 0) by (bit_vector);
    }
}

#[derive(Debug)]
pub enum HammingError {
    DifferentLengthArgs,
}

fn popcount_byte(b: u8) -> (r: u8)
    ensures
        r == popcount8(b),
{
    proof {
        assert(b & 1 <= 1 && (b >> 1u8) & 1 <= 1 && (b >> 2u8) & 1 <= 1 && (b >> 3u8) & 1 <= 1 && (
        b >> 4u8) & 1 <= 1 && (b >> 5u8) & 1 <= 1 && (b >> 6u8) & 1 <= 1 && (b >> 7u8) & 1
            <= 1) by (bit_vector);
    }
    (b & 1) + ((b >> 1u8) & 1) + ((b >> 2u8) & 1) + ((b >> 3u8) & 1) + ((b >> 4u8) & 1) + ((b
        >> 5u8) & 1) + ((b >> 6u8) & 1) + ((b >> 7u8) & 1)
}

/// Counts the bits that differ between `a` and `b`; larger means less
/// similar. Equal lengths are a precondition of the distance itself, so
/// unequal-length arguments are reported as an error value.
pub fn hamming_distance(a: &[u8], b: &[u8]) -> (r: Result<u64, HammingError>)
    requires
        8 * a@.len() <= u64::MAX,
    ensures
        r is Ok <==> a@.len() == b@.len(),
        r is Ok ==> r->Ok_0 == hamming_spec(a@, b@),
        r is Err ==> r->Err_0 == HammingError::DifferentLengthArgs,
{
    if a.len() != b.len() {
        return Err(HammingError::DifferentLengthArgs);
    }
    let mut dist: u64 = 0;
    let mut i: usize = 0;
    while i < a.len()
        invariant
            a@.len() == b@.len(),
            8 * a@.len() <= u64::MAX,
            i <= a@.len(),
            dist == hamming_spec(a@.take(i as int), b@.take(i as int)),
            dist <= 8 * i,
        decreases a.len() - i,
    {
        proof {
            lemma_popcount8_bounds(a@[i as int] ^ b@[i as int]);
            assert(a@.take(i as int + 1).drop_last() =~= a@.take(i as int));
            assert(b@.take(i as int + 1).drop_last() =~= b@.take(i as int));
        }
        dist = dist + popcount_byte(a[i] ^ b[i]) as u64;
        i = i + 1;
    }
    proof {
        assert(a@.take(i as int) =~= a@);
        assert(b@.take(i as int) =~= b@);
    }
    Ok(dist)
}

// ---------------------------------------------------------------------------
// Repeating-key length estimation
// ---------------------------------------------------------------------------

/// How many chunks after the first are compared against it when scoring a
/// candidate key length.
pub const NUM_CHUNKS: usize = 3;

/// The summed Hamming distance between the leading `len`-byte chunk of the
/// ciphertext and each of the following `chunks` chunks of the same size.
pub open spec fn keysize_distance_upto(ct: Seq<u8>, len: int, chunks: int) -> int
    decreases chunks,
{
    if chunks <= 0 {
        0
    } else {
        keysize_distance_upto(ct, len, chunks - 1) + hamming_spec(
            ct.subrange(0, len),
            ct.subrange((chunks) * len, (chunks + 1) * len),
        )
    }
}

pub open spec fn keysize_distance(ct: Seq<u8>, len: int) -> int {
    keysize_distance_upto(ct, len, NUM_CHUNKS as int)
}

/// Candidate key lengths are ordered by normalized distance, ascending:
/// `(l1, d1)` comes no later than `(l2, d2)` when `d1 / l1 < d2 / l2`, the
/// division compared exactly by cross-multiplication; equal ratios are
/// ordered by length, ascending.
pub open spec fn score_le(a: (usize, u64), b: (usize, u64)) -> bool {
    ||| (a.1 as int) * (b.0 as int) < (b.1 as int) * (a.0 as int)
    ||| ((a.1 as int) * (b.0 as int) == (b.1 as int) * (a.0 as int) && a.0 <= b.0)
}

/// Some entry of the list carries this key length.
pub open spec fn has_length(s: Seq<(usize, u64)>, l: usize) -> bool {
    exists|i: int| 0 <= i < s.len() && (#[trigger] s[i]).0 == l
}

fn score_le_exec(a: (usize, u64), b: (usize, u64)) -> (r: bool)
    ensures
        r == score_le(a, b),
{
    proof {
        assert((a.1 as int) * (b.0 as int) <= 0xffff_ffff_ffff_ffff_ffff_ffff_ffff_ffff) by (
        nonlinear_arith)
            requires
                0 <= a.1 <= u64::MAX,
                0 <= b.0 <= u64::MAX,
        ;
        assert((b.1 as int) * (a.0 as int) <= 0xffff_ffff_ffff_ffff_ffff_ffff_ffff_ffff) by (
        nonlinear_arith)
            requires
                0 <= b.1 <= u64::MAX,
                0 <= a.0 <= u64::MAX,
        ;
    }
    let x = (a.1 as u128) * (b.0 as u128);
    let y = (b.1 as u128) * (a.0 as u128);
    x < y || (x == y && a.0 <= b.0)
}

proof fn lemma_ratio_trans(da: int, la: int, db: int, lb: int, dc: int, lc: int)
    by (nonlinear_arith)
    requires
        la >= 1,
        lb >= 1,
        lc >= 1,
    ensures
        (da * lb < db * la && db * lc < dc * lb) ==> da * lc < dc * la,
        (da * lb < db * la && db * lc == dc * lb) ==> da * lc < dc * la,
        (da * lb == db * la && db * lc < dc * lb) ==> da * lc < dc * la,
        (da * lb == db * la && db * lc == dc * lb) ==> da * lc == dc * la,
{
}

proof fn lemma_score_le_trans(a: (usize, u64), b: (usize, u64), c: (usize, u64))
    requires
        a.0 >= 1,
        b.0 >= 1,
        c.0 >= 1,
        score_le(a, b),
        score_le(b, c),
    ensures
        score_le(a, c),
{
    lemma_ratio_trans(a.1 as int, a.0 as int, b.1 as int, b.0 as int, c.1 as int, c.0 as int);
}

proof fn lemma_swap_multiset(s: Seq<(usize, u64)>, i: int, j: int)
    requires
        0 <= i < j < s.len(),
    ensures
        s.update(i, s[j]).update(j, s[i]).to_multiset() == s.to_multiset(),
{
    broadcast use vstd::seq_lib::group_to_multiset_ensures;
    broadcast use vstd::seq_lib::to_multiset_update;
    broadcast use vstd::multiset::group_multiset_axioms;
    broadcast use vstd::multiset::group_multiset_properties;

    let s1 = s.update(i, s[j]);
    assert(s.contains(s[i]));
    assert(s1[j] == s[j]);
    assert(s1.update(j, s[i]).to_multiset() == s1.to_multiset().insert(s[i]).remove(s1[j]));
    assert(s1.to_multiset() == s.to_multiset().insert(s[j]).remove(s[i]));
    assert(s.to_multiset().insert(s[j]).remove(s[i]).insert(s[i]).remove(s[j])
        =~= s.to_multiset());
}

/// Sorts candidate (length, distance) pairs ascending under the normalized
/// distance order, by insertion.
fn sort_scores(v: &mut Vec<(usize, u64)>)
    requires
        forall|a: int| 0 <= a < old(v)@.len() ==> (#[trigger] old(v)@[a]).0 >= 1,
    ensures
        final(v)@.to_multiset() == old(v)@.to_multiset(),
        final(v)@.len() == old(v)@.len(),
        forall|i: int, j: int| 0 <= i < j < final(v)@.len() ==> score_le(final(v)@[i], final(v)@[j]),
{
    let n = v.len();
    if n == 0 {
        return ;
    }
    let mut i: usize = 1;
    while i < n
        invariant
            1 <= i <= n,
            n == v@.len(),
            v@.to_multiset() == old(v)@.to_multiset(),
            v@.len() == old(v)@.len(),
            forall|a: int| 0 <= a < n ==> (#[trigger] v@[a]).0 >= 1,
            forall|a: int, b: int| 0 <= a < b < i ==> score_le(v@[a], v@[b]),
        decreases n - i,
    {
        let mut j: usize = i;
        let mut done = false;
        while j > 0 && !done
            invariant
                j <= i < n,
                n == v@.len(),
                v@.to_multiset() == old(v)@.to_multiset(),
                v@.len() == old(v)@.len(),
                forall|a: int| 0 <= a < n ==> (#[trigger] v@[a]).0 >= 1,
                forall|a: int, b: int|
                    0 <= a < b <= i && a != j && b != j ==> score_le(v@[a], v@[b]),
                forall|b: int| j < b <= i ==> score_le(v@[j as int], #[trigger] v@[b]),
                done ==> (j == 0 || score_le(v@[j as int - 1], v@[j as int])),
            decreases j, (if done {
                0int
            } else {
                1int
            }),
        {
            let x = v[j - 1];
            let y = v[j];
            if score_le_exec(x, y) {
                done = true;
            } else {
                let ghost s0 = v@;
                proof {
                    lemma_swap_multiset(s0, j as int - 1, j as int);
                }
                v[j - 1] = y;
                v[j] = x;
                proof {
                    assert(v@ =~= s0.update(j as int - 1, y).update(j as int, x));
                }
                j = j - 1;
                proof {
                    assert forall|a: int, b: int|
                        0 <= a < b <= i && a != j && b != j implies score_le(v@[a], v@[b]) by {
                        if b == j + 1 {
                            assert(v@[b] == x);
                            if a < j {
                                assert(s0[a] == v@[a]);
                            }
                        }
                    }
                    assert forall|b: int| j < b <= i implies score_le(
                        v@[j as int],
                        #[trigger] v@[b],
                    ) by {
                        assert(v@[j as int] == y);
                        if b == j + 1 {
                            assert(v@[b] == x);
                        } else {
                            assert(v@[b] == s0[b]);
                        }
                    }
                }
            }
        }
        proof {
            assert forall|a: int, b: int| 0 <= a < b <= i implies score_le(v@[a], v@[b]) by {
                if done && j > 0 {
                    if b == j && a < j - 1 {
                        lemma_score_le_trans(v@[a], v@[j as int - 1], v@[j as int]);
                    }
                }
            }
        }
        i = i + 1;
    }
}

/// Scores every candidate key length from `min_len` through `max_len`
/// against the ciphertext: the leading chunk of that length is compared by
/// Hamming distance with the next `NUM_CHUNKS` chunks, and the summed
/// distances, normalized by the length, order the list ascending (the most
/// plausible length first). Equal normalized scores are ordered by length.
pub fn estimate_key_length(ciphertext: &[u8], min_len: usize, max_len: usize) -> (r: Vec<
    (usize, u64),
>)
    requires
        1 <= min_len <= max_len,
        max_len <= u32::MAX,
        (NUM_CHUNKS + 1) * max_len <= ciphertext@.len(),
    ensures
        r@.len() == max_len - min_len + 1,
        forall|i: int|
            0 <= i < r@.len() ==> min_len <= (#[trigger] r@[i]).0 <= max_len && r@[i].1
                == keysize_distance(ciphertext@, r@[i].0 as int),
        forall|l: usize| min_len <= l <= max_len ==> has_length(r@, l),
        forall|i: int, j: int| 0 <= i < j < r@.len() ==> score_le(r@[i], r@[j]),
{
    broadcast use vstd::seq_lib::group_to_multiset_ensures;

    let ct_len = ciphertext.len();
    let mut scores: Vec<(usize, u64)> = Vec::new();
    let mut l: usize = min_len;
    while l <= max_len
        invariant
            1 <= min_len <= l <= max_len + 1,
            max_len <= u32::MAX,
            (NUM_CHUNKS + 1) * max_len <= ciphertext@.len(),
            ct_len == ciphertext@.len(),
            scores@.len() == l - min_len,
            forall|i: int|
                0 <= i < scores@.len() ==> (#[trigger] scores@[i]).0 == min_len + i && scores@[i].1
                    == keysize_distance(ciphertext@, min_len + i),
        decreases max_len + 1 - l,
    {
        proof {
            assert(l <= (NUM_CHUNKS + 1) * l && (NUM_CHUNKS + 1) * l <= (NUM_CHUNKS + 1)
                * max_len) by (nonlinear_arith)
                requires
                    1 <= l <= max_len,
            ;
        }
        let first = slice_subrange(ciphertext, 0, l);
        let mut dist: u64 = 0;
        let mut c: usize = 1;
        while c <= NUM_CHUNKS
            invariant
                1 <= c <= NUM_CHUNKS + 1,
                1 <= l <= max_len <= u32::MAX,
                (NUM_CHUNKS + 1) * l <= ciphertext@.len(),
                ct_len == ciphertext@.len(),
                first@ == ciphertext@.subrange(0, l as int),
                dist == keysize_distance_upto(ciphertext@, l as int, c as int - 1),
                dist <= 8 * l * (c - 1),
            decreases NUM_CHUNKS + 1 - c,
        {
            proof {
                assert(c * l <= (c + 1) * l && (c + 1) * l <= (NUM_CHUNKS + 1) * l && (c + 1) * l
                    == c * l + l) by (nonlinear_arith)
                    requires
                        1 <= c <= NUM_CHUNKS,
                        l >= 1,
                ;
            }
            let chunk = slice_subrange(ciphertext, c * l, (c + 1) * l);
            let d = match hamming_distance(first, chunk) {
                Ok(d) => d,
                Err(_) => {
                    proof {
                        assert(false);
                    }
                    0
                },
            };
            proof {
                lemma_hamming_bounds(first@, chunk@);
                assert(8 * l * (c - 1) + 8 * l == 8 * l * (c as int)) by (nonlinear_arith);
                assert(8 * (l as int) * (NUM_CHUNKS as int) <= 8 * 0xffff_ffffu64 * 3) by (
                nonlinear_arith)
                    requires
                        0 <= l <= 0xffff_ffffu64,
                ;
                assert(8 * l * (c as int) <= 8 * (l as int) * (NUM_CHUNKS as int)) by (
                nonlinear_arith)
                    requires
                        c <= NUM_CHUNKS,
                        l >= 0,
                ;
            }
            dist = dist + d;
            c = c + 1;
        }
        scores.push((l, dist));
        proof {
            assert(max_len < (NUM_CHUNKS + 1) * max_len) by (nonlinear_arith)
                requires
                    max_len >= 1,
            ;
            assert(max_len < ct_len);
        }
        l = l + 1;
    }
    let ghost pre_sort = scores@;
    sort_scores(&mut scores);
    proof {
        assert forall|ll: usize| min_len <= ll <= max_len implies has_length(scores@, ll) by {
            let idx = ll - min_len;
            assert(pre_sort[idx].0 == ll);
            assert(pre_sort.contains(pre_sort[idx]));
            assert(scores@.to_multiset().count(pre_sort[idx]) > 0);
            assert(scores@.contains(pre_sort[idx]));
            let wi = choose|wi: int| 0 <= wi < scores@.len() && scores@[wi] == pre_sort[idx];
            assert((scores@[wi]).0 == ll);
        }
        assert forall|i: int| 0 <= i < scores@.len() implies min_len <= (#[trigger] scores@[i]).0
            <= max_len && scores@[i].1 == keysize_distance(ciphertext@, scores@[i].0 as int) by {
            let x = scores@[i];
            assert(scores@.contains(x));
            assert(pre_sort.to_multiset().count(x) > 0);
            assert(pre_sort.contains(x));
            let wj = choose|wj: int| 0 <= wj < pre_sort.len() && pre_sort[wj] == x;
            assert(pre_sort[wj].0 == min_len + wj);
        }
    }
    scores
}

// ---------------------------------------------------------------------------
// PKCS#7-style padding
// ---------------------------------------------------------------------------

/// Appends `n = len - (s.len() % len)` bytes, each holding the value `n`
/// (truncated to a byte), so the result's length is the next multiple of
/// `len` strictly greater than `s.len()`.
pub open spec fn pkcs7_pad_spec(s: Seq<u8>, len: int) -> Seq<u8>
    recommends
        0 < len,
{
    let pad = len - (s.len() as int % len);
    s + Seq::new(pad as nat, |_j: int| pad as u8)
}

pub fn pkcs7_pad(buf: &mut Vec<u8>, len: usize)
    requires
        0 < len,
        old(buf)@.len() + len <= usize::MAX,
    ensures
        final(buf)@ == pkcs7_pad_spec(old(buf)@, len as int),
{
    let to_add = len - (buf.len() % len);
    let pad_byte = to_add as u8;
    let mut k: usize = 0;
    while k < to_add
        invariant
            k <= to_add,
            to_add == len as int - (old(buf)@.len() as int % len as int),
            pad_byte == to_add as u8,
            buf@ == old(buf)@ + Seq::new(k as nat, |_j: int| pad_byte),
        decreases to_add - k,
    {
        buf.push(pad_byte);
        k = k + 1;
        assert(buf@ =~= old(buf)@ + Seq::new(k as nat, |_j: int| pad_byte));
    }
    assert(buf@ =~= pkcs7_pad_spec(old(buf)@, len as int));
}

} // verus!

