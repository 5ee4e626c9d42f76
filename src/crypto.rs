//! BLAKE3 digests and XChaCha20-Poly1305 sealing, with the container's nonce derivation.
use vstd::prelude::*;
use chacha20poly1305::aead::Aead;
use chacha20poly1305::KeyInit;

verus! {

/// Length of the AEAD tag appended to every sealed region.
pub const TAG_LEN: u64 = 16;

/// The largest message that XChaCha20-Poly1305 handles: the keystream that follows the MAC-key
/// block holds `u32::MAX - 1` blocks of 64 bytes.
pub const AEAD_MAX_PLAIN: u64 = 274877906816;

/// The BLAKE3 digest of a byte string.
pub uninterp spec fn blake3_of(data: Seq<u8>) -> Seq<u8>;

/// XChaCha20-Poly1305 ciphertext (with tag) of `msg` under `key`, `nonce` and associated data `ad`.
pub uninterp spec fn xchacha_seal(key: Seq<u8>, nonce: Seq<u8>, ad: Seq<u8>, msg: Seq<u8>) -> Seq<u8>;

/// XChaCha20-Poly1305 opening of `ct`: the plaintext, or `None` when authentication fails.
pub uninterp spec fn xchacha_open(key: Seq<u8>, nonce: Seq<u8>, ad: Seq<u8>, ct: Seq<u8>) -> Option<Seq<u8>>;

pub open spec fn opt_bytes(o: Option<Vec<u8>>) -> Option<Seq<u8>> {
    match o {
        Some(v) => Some(v@),
        None => None,
    }
}

/// Relies on blake3::hash: the 32-byte BLAKE3 digest, a function of the input alone.
#[verifier::external_body]
pub fn blake3_digest(data: &[u8]) -> (r: [u8; 32])
    ensures
        r@ == blake3_of(data@),
{
    *blake3::hash(data).as_bytes()
}

/// Relies on chacha20poly1305's `Aead::encrypt` for XChaCha20Poly1305: on a message within the
/// keystream's `u32::MAX - 1` blocks it neither panics nor fails, and it appends a 16-byte tag to
/// a ciphertext as long as the message.
#[verifier::external_body]
pub(crate) fn aead_seal(key: &[u8; 32], nonce: &[u8; 24], ad: &[u8], msg: &[u8]) -> (r: Option<Vec<u8>>)
    requires
        msg@.len() <= AEAD_MAX_PLAIN,
    ensures
        r is Some,
        r matches Some(c) ==> c@ == xchacha_seal(key@, nonce@, ad@, msg@) && c@.len() == msg@.len() + TAG_LEN,
{
    let aead = chacha20poly1305::XChaCha20Poly1305::new(chacha20poly1305::Key::from_slice(key));
    let payload = chacha20poly1305::aead::Payload { msg, aad: ad };
    aead.encrypt(chacha20poly1305::XNonce::from_slice(nonce), payload).ok()
}

/// Relies on chacha20poly1305's `Aead::decrypt` for XChaCha20Poly1305: on a ciphertext whose
/// message fits the keystream it does not panic; it is a function of its arguments that gives
/// back the message of any ciphertext that `encrypt` produced.
#[verifier::external_body]
pub(crate) fn aead_open(key: &[u8; 32], nonce: &[u8; 24], ad: &[u8], ct: &[u8]) -> (r: Option<Vec<u8>>)
    requires
        ct@.len() <= AEAD_MAX_PLAIN + TAG_LEN,
    ensures
        opt_bytes(r) == xchacha_open(key@, nonce@, ad@, ct@),
        forall|m: Seq<u8>|
            #![trigger xchacha_seal(key@, nonce@, ad@, m)]
            m.len() <= AEAD_MAX_PLAIN && ct@ == xchacha_seal(key@, nonce@, ad@, m) ==> opt_bytes(r)
                == Some(m),
        r matches Some(p) ==> p@.len() + TAG_LEN == ct@.len(),
{
    let aead = chacha20poly1305::XChaCha20Poly1305::new(chacha20poly1305::Key::from_slice(key));
    let payload = chacha20poly1305::aead::Payload { msg: ct, aad: ad };
    aead.decrypt(chacha20poly1305::XNonce::from_slice(nonce), payload).ok()
}

} // verus!
