//! The ChaCha20-Poly1305 cipher of the control protocol's Noise handshake, with the
//! big-endian nonces that protocol uses.
use vstd::prelude::*;
use chacha20poly1305::{AeadInPlace, KeyInit};

verus! {

/// The ChaCha20-Poly1305 sealing of `plaintext` under `key`, `nonce` and `ad`: the
/// ciphertext followed by the 16-byte tag.
pub uninterp spec fn chacha20poly1305_seal(key: Seq<u8>, nonce: Seq<u8>, ad: Seq<u8>, plaintext: Seq<u8>) -> Seq<u8>;

/// The ChaCha20-Poly1305 opening of `sealed` (ciphertext followed by tag) under `key`,
/// `nonce` and `ad`: the plaintext if the tag authenticates, `None` otherwise.
pub uninterp spec fn chacha20poly1305_open(key: Seq<u8>, nonce: Seq<u8>, ad: Seq<u8>, sealed: Seq<u8>) -> Option<Seq<u8>>;

/// The lengths the cipher seals or opens in one call: its keystream starts at block 1 of a
/// 32-bit block counter, so it covers `u32::MAX - 1` blocks of 64 bytes.
pub open spec fn within_block_limit(len: nat) -> bool {
    len <= 64 * (u32::MAX - 1)
}

/// The lengths the cipher refuses outright, with an error: `u32::MAX` blocks of 64 bytes or
/// more.
pub open spec fn refused_as_too_long(len: nat) -> bool {
    len / 64 >= u32::MAX
}

/// `ChaCha20Poly1305::new(key)` followed by `AeadInPlace::encrypt_in_place_detached` of the
/// `chacha20poly1305` crate, whose opaque error value is dropped. The lengths between the
/// keystream's reach and the crate's own length limit, on which the crate panics, are left
/// out. Claims: the call fails exactly on the lengths the crate refuses, and then leaves the
/// buffer unchanged; otherwise the buffer holds the ciphertext and the tag is returned, which
/// together are the sealing of the old buffer and open back to it.
#[verifier::external_body]
fn seal_in_place_detached(key: &[u8; 32], nonce: &[u8; 12], ad: &[u8], buffer: &mut [u8]) -> (r: Result<[u8; 16], ()>)
    requires
        within_block_limit(old(buffer)@.len()) || refused_as_too_long(old(buffer)@.len()),
    ensures
        final(buffer)@.len() == old(buffer)@.len(),
        r is Ok <==> within_block_limit(old(buffer)@.len()),
        r is Ok ==> final(buffer)@ + r.unwrap()@ == chacha20poly1305_seal(key@, nonce@, ad@, old(buffer)@),
        r is Ok ==> chacha20poly1305_open(key@, nonce@, ad@, final(buffer)@ + r.unwrap()@) == Some(old(buffer)@),
        r is Err ==> final(buffer)@ == old(buffer)@,
{
    let cipher = chacha20poly1305::ChaCha20Poly1305::new(&(*key).into());
    match cipher.encrypt_in_place_detached(&(*nonce).into(), ad, buffer) {
        Ok(tag) => Ok(tag.into()),
        Err(_) => Err(()),
    }
}

/// `ChaCha20Poly1305::new(key)` followed by `AeadInPlace::decrypt_in_place_detached` of the
/// `chacha20poly1305` crate, whose opaque error value is dropped. The lengths between the
/// keystream's reach and the crate's own length limit, on which the crate panics when the tag
/// verifies, are left out. Claims: the call succeeds exactly when the buffer is within the
/// keystream's reach and the buffer with the tag opens, and then the buffer holds the
/// plaintext; otherwise the buffer is unchanged.
#[verifier::external_body]
fn open_in_place_detached(key: &[u8; 32], nonce: &[u8; 12], ad: &[u8], buffer: &mut [u8], tag: &[u8; 16]) -> (r: Result<(), ()>)
    requires
        within_block_limit(old(buffer)@.len()) || refused_as_too_long(old(buffer)@.len()),
    ensures
        final(buffer)@.len() == old(buffer)@.len(),
        r is Ok <==> (within_block_limit(old(buffer)@.len())
            && chacha20poly1305_open(key@, nonce@, ad@, old(buffer)@ + tag@) is Some),
        r is Ok ==> Some(final(buffer)@) == chacha20poly1305_open(key@, nonce@, ad@, old(buffer)@ + tag@),
        r is Err ==> final(buffer)@ == old(buffer)@,
{
    let cipher = chacha20poly1305::ChaCha20Poly1305::new(&(*key).into());
    match cipher.decrypt_in_place_detached(&(*nonce).into(), ad, buffer, &(*tag).into()) {
        Ok(()) => Ok(()),
        Err(_) => Err(()),
    }
}

/// The 12-byte nonce built from a 64-bit counter: four zero bytes, then the counter in
/// big-endian order.
pub open spec fn nonce_bytes(nonce: u64) -> Seq<u8> {
    seq![
        0u8,
        0u8,
        0u8,
        0u8,
        (nonce >> 56u64) as u8,
        (nonce >> 48u64) as u8,
        (nonce >> 40u64) as u8,
        (nonce >> 32u64) as u8,
        (nonce >> 24u64) as u8,
        (nonce >> 16u64) as u8,
        (nonce >> 8u64) as u8,
        nonce as u8,
    ]
}

fn full_nonce(nonce: u64) -> (r: [u8; 12])
    ensures
        r@ == nonce_bytes(nonce),
{
    let r = [
        0u8,
        0u8,
        0u8,
        0u8,
        (nonce >> 56u64) as u8,
        (nonce >> 48u64) as u8,
        (nonce >> 40u64) as u8,
        (nonce >> 32u64) as u8,
        (nonce >> 24u64) as u8,
        (nonce >> 16u64) as u8,
        (nonce >> 8u64) as u8,
        nonce as u8,
    ];
    assert(r@ =~= nonce_bytes(nonce));
    r
}

/// Copies `src` into the start of `dst`.
fn copy_into(dst: &mut [u8], src: &[u8])
    requires
        src@.len() <= old(dst)@.len(),
    ensures
        final(dst)@ == src@ + old(dst)@.skip(src@.len() as int),
{
    let n: usize = src.len();
    let mut i: usize = 0;
    while i < n
        invariant
            i <= n,
            n == src@.len(),
            n <= dst@.len(),
            dst@.len() == old(dst)@.len(),
            dst@ == src@.take(i as int) + old(dst)@.skip(i as int),
        decreases n - i,
    {
        dst[i] = src[i];
        i = i + 1;
        assert(dst@ =~= src@.take(i as int) + old(dst)@.skip(i as int));
    }
    assert(src@.take(n as int) =~= src@);
}

/// ChaCha20-Poly1305 with the big-endian nonces of the control protocol (TS2021). It differs
/// from the cipher of the same name of the Noise library only in the nonce's byte order.
pub struct ChaCha20Poly1305BigEndian;

impl ChaCha20Poly1305BigEndian {
    /// The cipher's name in Noise protocol names.
    pub fn name() -> (r: &'static str)
        ensures
            r@ == "ChaChaPoly"@,
    {
        "ChaChaPoly"
    }

    /// Encrypts `plaintext` into `out`, which must be exactly 16 bytes longer: the ciphertext
    /// followed by the tag.
    pub fn encrypt(k: &[u8; 32], nonce: u64, ad: &[u8], plaintext: &[u8], out: &mut [u8])
        requires
            plaintext@.len() + 16 == old(out)@.len(),
            within_block_limit(plaintext@.len()),
        ensures
            final(out)@.len() == old(out)@.len(),
            final(out)@ == chacha20poly1305_seal(k@, nonce_bytes(nonce), ad@, plaintext@),
            chacha20poly1305_open(k@, nonce_bytes(nonce), ad@, final(out)@) == Some(plaintext@),
    {
        let full_nonce = full_nonce(nonce);
        let (in_out, tag_out) = out.split_at_mut(plaintext.len());
        copy_into(in_out, plaintext);
        assert(in_out@ =~= plaintext@);
        match seal_in_place_detached(k, &full_nonce, ad, in_out) {
            Ok(tag) => {
                copy_into(tag_out, &tag);
                assert(tag_out@ =~= tag@);
            },
            Err(_) => {},
        }
    }

    /// Encrypts the first `plaintext_len` bytes of `in_out` in place and appends the tag;
    /// returns the length of ciphertext and tag.
    pub fn encrypt_in_place(k: &[u8; 32], nonce: u64, ad: &[u8], in_out: &mut [u8], plaintext_len: usize) -> (r: usize)
        requires
            plaintext_len + 16 <= old(in_out)@.len(),
            within_block_limit(plaintext_len as nat),
        ensures
            r == plaintext_len + 16,
            final(in_out)@.len() == old(in_out)@.len(),
            final(in_out)@.take(r as int) == chacha20poly1305_seal(
                k@,
                nonce_bytes(nonce),
                ad@,
                old(in_out)@.take(plaintext_len as int),
            ),
            chacha20poly1305_open(k@, nonce_bytes(nonce), ad@, final(in_out)@.take(r as int)) == Some(
                old(in_out)@.take(plaintext_len as int),
            ),
            final(in_out)@.skip(r as int) == old(in_out)@.skip(r as int),
    {
        let full_nonce = full_nonce(nonce);
        let total: usize = in_out.len();
        let (used, rest) = in_out.split_at_mut(plaintext_len + 16);
        let (text, tag_out) = used.split_at_mut(plaintext_len);
        let ghost old_text = text@;
        match seal_in_place_detached(k, &full_nonce, ad, text) {
            Ok(tag) => {
                copy_into(tag_out, &tag);
                assert(tag_out@ =~= tag@);
            },
            Err(_) => {},
        }
        proof {
            assert(old_text =~= old(in_out)@.take(plaintext_len as int));
            assert(final(rest)@ == rest@);
            assert(final(tag_out)@ == tag_out@);
            assert(final(text)@ == text@);
            assert(final(in_out)@.take(plaintext_len + 16) =~= final(used)@);
            assert(final(in_out)@.skip(plaintext_len + 16) =~= final(rest)@);
        }
        plaintext_len + 16
    }

    /// Decrypts `ciphertext` (ciphertext followed by tag) into `out`, which must be exactly 16
    /// bytes shorter. Fails if the tag does not authenticate or the length is one the cipher
    /// refuses; `out` then holds the bytes of the ciphertext.
    pub fn decrypt(k: &[u8; 32], nonce: u64, ad: &[u8], ciphertext: &[u8], out: &mut [u8]) -> (r: Result<(), ()>)
        requires
            ciphertext@.len() >= 16,
            ciphertext@.len() - 16 == old(out)@.len(),
            within_block_limit(old(out)@.len()) || refused_as_too_long(old(out)@.len()),
        ensures
            final(out)@.len() == old(out)@.len(),
            r is Ok <==> (within_block_limit(old(out)@.len()) && chacha20poly1305_open(
                k@,
                nonce_bytes(nonce),
                ad@,
                ciphertext@,
            ) is Some),
            r is Ok ==> Some(final(out)@) == chacha20poly1305_open(k@, nonce_bytes(nonce), ad@, ciphertext@),
            r is Err ==> final(out)@ == ciphertext@.take(old(out)@.len() as int),
    {
        let full_nonce = full_nonce(nonce);
        let n: usize = out.len();
        let (body, tag_bytes) = ciphertext.split_at(n);
        copy_into(out, body);
        assert(out@ =~= body@);
        let tag: [u8; 16] = [
            tag_bytes[0], tag_bytes[1], tag_bytes[2], tag_bytes[3],
            tag_bytes[4], tag_bytes[5], tag_bytes[6], tag_bytes[7],
            tag_bytes[8], tag_bytes[9], tag_bytes[10], tag_bytes[11],
            tag_bytes[12], tag_bytes[13], tag_bytes[14], tag_bytes[15],
        ];
        assert(tag@ =~= tag_bytes@);
        assert(body@ + tag@ =~= ciphertext@);
        match open_in_place_detached(k, &full_nonce, ad, out, &tag) {
            Ok(()) => Ok(()),
            Err(_) => Err(()),
        }
    }

    /// Decrypts the first `ciphertext_len` bytes of `in_out` (ciphertext followed by tag) in
    /// place; returns the length of the plaintext. Fails, leaving `in_out` unchanged, if the
    /// tag does not authenticate or the length is one the cipher refuses.
    pub fn decrypt_in_place(k: &[u8; 32], nonce: u64, ad: &[u8], in_out: &mut [u8], ciphertext_len: usize) -> (r: Result<usize, ()>)
        requires
            ciphertext_len <= old(in_out)@.len(),
            ciphertext_len >= 16,
            within_block_limit((ciphertext_len - 16) as nat) || refused_as_too_long((ciphertext_len - 16) as nat),
        ensures
            final(in_out)@.len() == old(in_out)@.len(),
            r is Ok <==> (within_block_limit((ciphertext_len - 16) as nat) && chacha20poly1305_open(
                k@,
                nonce_bytes(nonce),
                ad@,
                old(in_out)@.take(ciphertext_len as int),
            ) is Some),
            r is Ok ==> r.unwrap() == ciphertext_len - 16 && Some(final(in_out)@.take(r.unwrap() as int))
                == chacha20poly1305_open(k@, nonce_bytes(nonce), ad@, old(in_out)@.take(ciphertext_len as int)),
            r is Ok ==> final(in_out)@.skip(ciphertext_len - 16) == old(in_out)@.skip(ciphertext_len - 16),
            r is Err ==> final(in_out)@ == old(in_out)@,
    {
        let full_nonce = full_nonce(nonce);
        let (used, rest) = in_out.split_at_mut(ciphertext_len);
        let (text, tag_bytes) = used.split_at_mut(ciphertext_len - 16);
        let tag: [u8; 16] = [
            tag_bytes[0], tag_bytes[1], tag_bytes[2], tag_bytes[3],
            tag_bytes[4], tag_bytes[5], tag_bytes[6], tag_bytes[7],
            tag_bytes[8], tag_bytes[9], tag_bytes[10], tag_bytes[11],
            tag_bytes[12], tag_bytes[13], tag_bytes[14], tag_bytes[15],
        ];
        assert(tag@ =~= tag_bytes@);
        let ghost sealed = text@ + tag@;
        assert(sealed =~= old(in_out)@.take(ciphertext_len as int));
        let res = open_in_place_detached(k, &full_nonce, ad, text, &tag);
        proof {
            assert(final(rest)@ == rest@);
            assert(final(tag_bytes)@ == tag_bytes@);
            assert(final(text)@ == text@);
            assert(final(used)@ == final(text)@ + final(tag_bytes)@);
            assert(final(in_out)@ == final(used)@ + final(rest)@);
        }
        match res {
            Ok(()) => {
                proof {
                    assert(final(in_out)@.take(ciphertext_len - 16) =~= final(text)@);
                    assert(final(in_out)@.skip(ciphertext_len - 16) =~= old(in_out)@.skip(ciphertext_len - 16));
                }
                Ok(ciphertext_len - 16)
            },
            Err(_) => {
                proof {
                    assert(final(in_out)@ =~= old(in_out)@);
                }
                Err(())
            },
        }
    }
}

} // verus!
