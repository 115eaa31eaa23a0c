use vstd::prelude::*;

use aes::cipher::generic_array::GenericArray;
use aes::{Aes128, BlockDecrypt, BlockEncrypt, NewBlockCipher};

verus! {

use vstd::slice::slice_subrange;
use vstd::slice::slice_to_vec;
use crate::pkcs7_pad;
use crate::pkcs7_pad_spec;

pub const BLOCK_LEN: usize = 16;

// ---------------------------------------------------------------------------
// The block-cipher oracle
// ---------------------------------------------------------------------------

/// What AES-128 produces when encrypting one 16-byte block under a 16-byte
/// key. The result is a function of the key and block alone.
pub uninterp spec fn aes_enc_block(key: Seq<u8>, block: Seq<u8>) -> Seq<u8>;

/// What AES-128 produces when decrypting one 16-byte block under a 16-byte
/// key. The result is a function of the key and block alone.
pub uninterp spec fn aes_dec_block(key: Seq<u8>, block: Seq<u8>) -> Seq<u8>;

/// Relies on aes::Aes128 with cipher::BlockEncrypt::encrypt_block: a keyed,
/// deterministic permutation of one 16-byte block, inverted by
/// cipher::BlockDecrypt::decrypt_block under the same key; the output block
/// is again 16 bytes.
#[verifier::external_body]
fn encrypt_block(key: &[u8; 16], block: &Vec<u8>) -> (r: Vec<u8>)
    requires
        block@.len() == 16,
    ensures
        r@.len() == 16,
        r@ == aes_enc_block(key@, block@),
        aes_dec_block(key@, r@) == block@,
{
    let cipher = Aes128::new(key.into());
    let arr: [u8; 16] = block.as_slice().try_into().unwrap();
    let mut b: GenericArray<u8, _> = arr.into();
    cipher.encrypt_block(&mut b);
    let out: [u8; 16] = b.into();
    out.to_vec()
}

/// Relies on aes::Aes128 with cipher::BlockDecrypt::decrypt_block: the
/// inverse of the permutation applied by encrypt_block under the same key;
/// the output block is again 16 bytes.
#[verifier::external_body]
fn decrypt_block(key: &[u8; 16], block: &Vec<u8>) -> (r: Vec<u8>)
    requires
        block@.len() == 16,
    ensures
        r@.len() == 16,
        r@ == aes_dec_block(key@, block@),
        aes_enc_block(key@, r@) == block@,
{
    let cipher = Aes128::new(key.into());
    let arr: [u8; 16] = block.as_slice().try_into().unwrap();
    let mut b: GenericArray<u8, _> = arr.into();
    cipher.decrypt_block(&mut b);
    let out: [u8; 16] = b.into();
    out.to_vec()
}

// ---------------------------------------------------------------------------
// Bytewise XOR of two equal-length buffers
// ---------------------------------------------------------------------------

pub open spec fn xor_block(a: Seq<u8>, b: Seq<u8>) -> Seq<u8> {
    Seq::new(a.len(), |i: int| a[i] ^ b[i])
}

pub proof fn lemma_xor_block_involution(a: Seq<u8>, b: Seq<u8>)
    requires
        a.len() == b.len(),
    ensures
        xor_block(xor_block(a, b), b) == a,
{
    let x = xor_block(xor_block(a, b), b);
    assert forall|i: int| 0 <= i < a.len() implies x[i] == a[i] by {
        let p = a[i];
        let q = b[i];
        assert((p ^ q) ^ q == p) by (bit_vector);
    }
    assert(x =~= a);
}

/// XOR of two equal-length buffers, byte by byte.
pub fn xor_bytes(a: &[u8], b: &[u8]) -> (r: Vec<u8>)
    requires
        a@.len() == b@.len(),
    ensures
        r@ == xor_block(a@, b@),
{
    let mut out: Vec<u8> = Vec::new();
    let mut i: usize = 0;
    while i < a.len()
        invariant
            a@.len() == b@.len(),
            i <= a@.len(),
            out@ == xor_block(a@, b@).take(i as int),
        decreases a@.len() - i,
    {
        out.push(a[i] ^ b[i]);
        i = i + 1;
        assert(out@ =~= xor_block(a@, b@).take(i as int));
    }
    assert(out@ =~= xor_block(a@, b@));
    out
}

// ---------------------------------------------------------------------------
// CBC chaining over the oracle
// ---------------------------------------------------------------------------

/// CBC encryption of a block-aligned message: each block is XORed with the
/// previous ciphertext block (the IV for the first), then encrypted; the
/// resulting block chains into the next.
pub open spec fn cbc_encrypt_spec(key: Seq<u8>, prev: Seq<u8>, msg: Seq<u8>) -> Seq<u8>
    decreases msg.len(),
{
    if msg.len() < 16 {
        Seq::<u8>::empty()
    } else {
        let c = aes_enc_block(key, xor_block(msg.take(16), prev));
        c + cbc_encrypt_spec(key, c, msg.skip(16))
    }
}

/// CBC decryption of a block-aligned ciphertext: each block is decrypted,
/// then XORed with the previous raw ciphertext block (the IV for the first).
pub open spec fn cbc_decrypt_spec(key: Seq<u8>, prev: Seq<u8>, ct: Seq<u8>) -> Seq<u8>
    decreases ct.len(),
{
    if ct.len() < 16 {
        Seq::<u8>::empty()
    } else {
        xor_block(aes_dec_block(key, ct.take(16)), prev) + cbc_decrypt_spec(
            key,
            ct.take(16),
            ct.skip(16),
        )
    }
}

/// The chaining value left after CBC-encrypting a block-aligned message:
/// the last ciphertext block produced, or the initial value for an empty
/// message.
pub open spec fn cbc_chain(key: Seq<u8>, prev: Seq<u8>, msg: Seq<u8>) -> Seq<u8>
    decreases msg.len(),
{
    if msg.len() < 16 {
        prev
    } else {
        cbc_chain(key, aes_enc_block(key, xor_block(msg.take(16), prev)), msg.skip(16))
    }
}

/// The raw block that CBC decryption chains with next: the ciphertext's last
/// block, or the initial value while no ciphertext has been consumed.
pub open spec fn last_block(prev: Seq<u8>, ct: Seq<u8>) -> Seq<u8> {
    if ct.len() == 0 {
        prev
    } else {
        ct.subrange(ct.len() - 16, ct.len() as int)
    }
}

proof fn lemma_cbc_dec_snoc(key: Seq<u8>, prev: Seq<u8>, ct: Seq<u8>, blk: Seq<u8>)
    requires
        ct.len() % 16 == 0,
        blk.len() == 16,
    ensures
        cbc_decrypt_spec(key, prev, ct + blk) == cbc_decrypt_spec(key, prev, ct) + xor_block(
            aes_dec_block(key, blk),
            last_block(prev, ct),
        ),
    decreases ct.len(),
{
    if ct.len() == 0 {
        assert(ct + blk =~= blk);
        assert(blk.take(16) =~= blk);
        assert(blk.skip(16).len() == 0);
        assert(cbc_decrypt_spec(key, blk, blk.skip(16)) == Seq::<u8>::empty());
        assert(cbc_decrypt_spec(key, prev, blk) == xor_block(aes_dec_block(key, blk), prev)
            + cbc_decrypt_spec(key, blk, blk.skip(16)));
        assert(cbc_decrypt_spec(key, prev, ct + blk) =~= xor_block(
            aes_dec_block(key, blk),
            prev,
        ));
        assert(cbc_decrypt_spec(key, prev, ct) + xor_block(aes_dec_block(key, blk), prev)
            =~= xor_block(aes_dec_block(key, blk), prev));
    } else {
        assert(ct.len() >= 16);
        let c0 = ct.take(16);
        assert((ct + blk).take(16) =~= c0);
        assert((ct + blk).skip(16) =~= ct.skip(16) + blk);
        lemma_cbc_dec_snoc(key, c0, ct.skip(16), blk);
        assert(last_block(c0, ct.skip(16)) =~= last_block(prev, ct));
        let head = xor_block(aes_dec_block(key, c0), prev);
        assert(cbc_decrypt_spec(key, prev, ct + blk) == head + (cbc_decrypt_spec(key, c0, ct.skip(16))
            + xor_block(aes_dec_block(key, blk), last_block(prev, ct))));
        assert(head + (cbc_decrypt_spec(key, c0, ct.skip(16)) + xor_block(
            aes_dec_block(key, blk),
            last_block(prev, ct),
        )) =~= (head + cbc_decrypt_spec(key, c0, ct.skip(16))) + xor_block(
            aes_dec_block(key, blk),
            last_block(prev, ct),
        ));
    }
}

proof fn lemma_cbc_enc_snoc(key: Seq<u8>, prev: Seq<u8>, msg: Seq<u8>, p: Seq<u8>)
    requires
        msg.len() % 16 == 0,
        p.len() == 16,
    ensures
        cbc_encrypt_spec(key, prev, msg + p) == cbc_encrypt_spec(key, prev, msg) + aes_enc_block(
            key,
            xor_block(p, cbc_chain(key, prev, msg)),
        ),
        cbc_chain(key, prev, msg + p) == aes_enc_block(key, xor_block(p, cbc_chain(key, prev, msg))),
    decreases msg.len(),
{
    if msg.len() == 0 {
        assert(msg + p =~= p);
        assert(p.take(16) =~= p);
        assert(p.skip(16).len() == 0);
        let c = aes_enc_block(key, xor_block(p, prev));
        assert(cbc_encrypt_spec(key, prev, msg + p) == c + cbc_encrypt_spec(key, c, p.skip(16)));
        assert(cbc_encrypt_spec(key, c, p.skip(16)).len() == 0);
        assert(cbc_encrypt_spec(key, prev, msg + p) =~= c);
        assert(cbc_encrypt_spec(key, prev, msg) + c =~= c);
        assert(cbc_chain(key, c, p.skip(16)) == c);
        assert(cbc_chain(key, prev, msg + p) == cbc_chain(key, c, p.skip(16)));
    } else {
        assert(msg.len() >= 16);
        let c = aes_enc_block(key, xor_block(msg.take(16), prev));
        assert((msg + p).take(16) =~= msg.take(16));
        assert((msg + p).skip(16) =~= msg.skip(16) + p);
        lemma_cbc_enc_snoc(key, c, msg.skip(16), p);
        assert(cbc_chain(key, prev, msg) == cbc_chain(key, c, msg.skip(16)));
        assert(cbc_chain(key, prev, msg + p) == cbc_chain(key, c, msg.skip(16) + p));
        let tail_new = aes_enc_block(key, xor_block(p, cbc_chain(key, c, msg.skip(16))));
        assert(cbc_encrypt_spec(key, prev, msg + p) == c + (cbc_encrypt_spec(key, c, msg.skip(16))
            + tail_new));
        assert(c + (cbc_encrypt_spec(key, c, msg.skip(16)) + tail_new) =~= (c + cbc_encrypt_spec(
            key,
            c,
            msg.skip(16),
        )) + tail_new);
    }
}

/// The padded form a message is CBC-encrypted in: a message already a
/// multiple of the block length is passed through unpadded; any other is
/// padded per PKCS#7.
pub open spec fn cbc_padded(msg: Seq<u8>) -> Seq<u8> {
    if msg.len() % 16 == 0 {
        msg
    } else {
        pkcs7_pad_spec(msg, 16)
    }
}

/// For a message that is not a multiple of the block length, the padded form
/// is the smallest multiple of the block length greater than the message:
/// the message itself followed by pad bytes that all hold the pad amount.
pub proof fn lemma_padding_shape(msg: Seq<u8>)
    requires
        msg.len() % 16 != 0,
    ensures
        cbc_padded(msg).len() % 16 == 0,
        msg.len() < cbc_padded(msg).len() < msg.len() + 16,
        cbc_padded(msg).take(msg.len() as int) == msg,
        forall|i: int|
            msg.len() <= i < cbc_padded(msg).len() ==> cbc_padded(msg)[i] == (cbc_padded(
                msg,
            ).len() - msg.len()) as u8,
{
    let len = msg.len() as int;
    let r = len % 16;
    let pad = 16 - r;
    vstd::arithmetic::div_mod::lemma_fundamental_div_mod(len, 16);
    let q = len / 16;
    assert((q + 1) * 16 == q * 16 + 16) by (nonlinear_arith);
    vstd::arithmetic::div_mod::lemma_fundamental_div_mod_converse(len + pad, 16, q + 1, 0);
    assert(cbc_padded(msg).take(len) =~= msg);
}

/// CBC-encrypts a message under a 16-byte key and IV. An empty message
/// yields an empty ciphertext; a message that is not a multiple of the block
/// length is first padded per PKCS#7; an aligned one is passed through
/// unpadded. The third clause states that decrypting the result under the
/// same key and IV gives the padded message back, so together with
/// `decrypt`'s contract the round trip is exact.
pub fn encrypt(key: &[u8; 16], iv: &[u8; 16], msg: &[u8]) -> (r: Vec<u8>)
    requires
        msg@.len() + 16 <= usize::MAX,
    ensures
        msg@.len() == 0 ==> r@ == Seq::<u8>::empty(),
        msg@.len() > 0 ==> r@ == cbc_encrypt_spec(key@, iv@, cbc_padded(msg@)),
        msg@.len() > 0 ==> cbc_decrypt_spec(key@, iv@, r@) == cbc_padded(msg@),
        msg@.len() % 16 == 0 ==> r@.len() == msg@.len(),
        msg@.len() % 16 != 0 ==> r@.len() % 16 == 0 && msg@.len() < r@.len() < msg@.len() + 16,
{
    let mut out: Vec<u8> = Vec::new();
    if msg.len() == 0 {
        return out;
    }
    let mut data: Vec<u8> = slice_to_vec(msg);
    if data.len() % BLOCK_LEN != 0 {
        pkcs7_pad(&mut data, BLOCK_LEN);
    }
    let ghost padded = data@;
    proof {
        assert(padded == cbc_padded(msg@));
        assert(padded.len() % 16 == 0);
    }
    let mut prev: Vec<u8> = slice_to_vec(iv.as_slice());
    let mut i: usize = 0;
    proof {
        assert(padded.skip(0) =~= padded);
        assert(Seq::<u8>::empty() + cbc_encrypt_spec(key@, iv@, padded) =~= cbc_encrypt_spec(
            key@,
            iv@,
            padded,
        ));
        assert(Seq::<u8>::empty().len() < 16);
    }
    while i < data.len()
        invariant
            data@ == padded,
            padded == cbc_padded(msg@),
            padded.len() % 16 == 0,
            i % 16 == 0,
            i <= padded.len(),
            prev@.len() == 16,
            out@.len() == i,
            cbc_encrypt_spec(key@, iv@, padded) == out@ + cbc_encrypt_spec(
                key@,
                prev@,
                padded.skip(i as int),
            ),
            cbc_decrypt_spec(key@, iv@, out@) == padded.take(i as int),
            last_block(iv@, out@) == prev@,
        decreases padded.len() - i,
    {
        let chunk = slice_subrange(data.as_slice(), i, i + BLOCK_LEN);
        let blk = xor_bytes(chunk, prev.as_slice());
        let c = encrypt_block(key, &blk);
        proof {
            let ii = i as int;
            let s = padded.skip(ii);
            assert(s.take(16) =~= padded.subrange(ii, ii + 16));
            assert(s.skip(16) =~= padded.skip(ii + 16));
            assert(chunk@ == s.take(16));
            // the freshly produced block is the head of the remaining spec
            assert(cbc_encrypt_spec(key@, prev@, s) == c@ + cbc_encrypt_spec(
                key@,
                c@,
                padded.skip(ii + 16),
            ));
            assert(out@ + (c@ + cbc_encrypt_spec(key@, c@, padded.skip(ii + 16))) =~= (out@ + c@)
                + cbc_encrypt_spec(key@, c@, padded.skip(ii + 16)));
            // decrypting the extended ciphertext recovers one more block
            lemma_cbc_dec_snoc(key@, iv@, out@, c@);
            lemma_xor_block_involution(chunk@, prev@);
            assert(padded.take(ii) + padded.subrange(ii, ii + 16) =~= padded.take(ii + 16));
            assert((out@ + c@).subrange(ii, ii + 16) =~= c@);
        }
        let mut cblock = c;
        prev = slice_to_vec(cblock.as_slice());
        out.append(&mut cblock);
        i = i + BLOCK_LEN;
    }
    proof {
        assert(padded.skip(i as int).len() == 0);
        assert(cbc_encrypt_spec(key@, prev@, padded.skip(i as int)) =~= Seq::<u8>::empty());
        assert(out@ + Seq::<u8>::empty() =~= out@);
        assert(padded.take(i as int) =~= padded);
    }
    out
}

/// CBC-decrypts a block-aligned ciphertext under a 16-byte key and IV. An
/// empty ciphertext yields an empty plaintext. Padding is never inspected or
/// stripped: the result holds any trailing pad bytes verbatim, and the third
/// clause states that re-encrypting the (already aligned) result under the
/// same key and IV gives the ciphertext back.
pub fn decrypt(key: &[u8; 16], iv: &[u8; 16], msg: &[u8]) -> (r: Vec<u8>)
    requires
        msg@.len() % 16 == 0,
    ensures
        r@ == cbc_decrypt_spec(key@, iv@, msg@),
        r@.len() == msg@.len(),
        msg@.len() == 0 ==> r@ == Seq::<u8>::empty(),
        cbc_encrypt_spec(key@, iv@, r@) == msg@,
{
    let mut out: Vec<u8> = Vec::new();
    let mut prev: Vec<u8> = slice_to_vec(iv.as_slice());
    let mut i: usize = 0;
    while i < msg.len()
        invariant
            msg@.len() % 16 == 0,
            i % 16 == 0,
            i <= msg@.len(),
            prev@.len() == 16,
            out@.len() == i,
            out@ == cbc_decrypt_spec(key@, iv@, msg@.take(i as int)),
            cbc_encrypt_spec(key@, iv@, out@) == msg@.take(i as int),
            cbc_chain(key@, iv@, out@) == prev@,
            last_block(iv@, msg@.take(i as int)) == prev@,
        decreases msg@.len() - i,
    {
        let chunk = slice_subrange(msg, i, i + BLOCK_LEN);
        let d = decrypt_block(key, &slice_to_vec(chunk));
        let p = xor_bytes(d.as_slice(), prev.as_slice());
        proof {
            let ii = i as int;
            // decrypting one more ciphertext block appends one plain block
            assert(msg@.take(ii) + chunk@ =~= msg@.take(ii + 16));
            lemma_cbc_dec_snoc(key@, iv@, msg@.take(ii), chunk@);
            // re-encrypting the extended plaintext appends the same block
            lemma_cbc_enc_snoc(key@, iv@, out@, p@);
            lemma_xor_block_involution(d@, prev@);
            assert(msg@.take(ii + 16).subrange(ii, ii + 16) =~= chunk@);
        }
        let mut pblock = p;
        prev = slice_to_vec(chunk);
        out.append(&mut pblock);
        i = i + BLOCK_LEN;
    }
    proof {
        assert(msg@.take(i as int) =~= msg@);
    }
    out
}

} // verus!
