//! Envelope crypto: ECDH key agreement against a hardware key provider,
//! key derivation, and authenticated wrap/unwrap of a fixed-size file key.

use vstd::prelude::*;

use vstd::string::StrSliceExecFns;
use vstd::utf8::encode_utf8;

use chacha20poly1305::aead::Aead;
use chacha20poly1305::KeyInit;
use hmac::Mac;
use p256::elliptic_curve::sec1::ToEncodedPoint;

use crate::FILE_KEY_LEN;

verus! {

/// Errors from the key provider and the envelope scheme.
#[derive(Debug)]
pub enum CryptoError {
    SEUnsupported,
    SEKeyCreationFailed(String),
    SEKeyLoadFailed(String),
    KeyAgreementFailed(String),
    /// A file key offered for wrapping was not exactly [`FILE_KEY_LEN`] bytes.
    InvalidFileKeyLength,
    EncryptionFailed,
    DecryptionFailed,
}

/// How use of a created key is gated by the platform.
#[derive(Debug, Clone, Copy, PartialEq, Eq, Structural)]
pub enum KeyAccessControl {
    NoneRequired,
    Passcode,
    AnyBiometry,
    AnyBiometryOrPasscode,
    AnyBiometryAndPasscode,
    CurrentBiometry,
    CurrentBiometryAndPasscode,
}

/// The textual label for an access-control choice, as written in key files.
pub open spec fn access_control_label(ac: KeyAccessControl) -> Seq<char> {
    match ac {
        KeyAccessControl::NoneRequired => "none"@,
        KeyAccessControl::Passcode => "passcode"@,
        KeyAccessControl::AnyBiometry => "any biometry"@,
        KeyAccessControl::AnyBiometryOrPasscode => "any biometry or passcode"@,
        KeyAccessControl::AnyBiometryAndPasscode => "any biometry and passcode"@,
        KeyAccessControl::CurrentBiometry => "current biometry"@,
        KeyAccessControl::CurrentBiometryAndPasscode => "current biometry and passcode"@,
    }
}

impl KeyAccessControl {
    /// The label used in generated key files.
    pub fn label(&self) -> (r: &'static str)
        ensures
            r@ == access_control_label(*self),
    {
        match self {
            KeyAccessControl::NoneRequired => "none",
            KeyAccessControl::Passcode => "passcode",
            KeyAccessControl::AnyBiometry => "any biometry",
            KeyAccessControl::AnyBiometryOrPasscode => "any biometry or passcode",
            KeyAccessControl::AnyBiometryAndPasscode => "any biometry and passcode",
            KeyAccessControl::CurrentBiometry => "current biometry",
            KeyAccessControl::CurrentBiometryAndPasscode => "current biometry and passcode",
        }
    }
}

/// What HMAC-SHA-256 returns for a key and a message.
pub uninterp spec fn hmac_of(key: Seq<u8>, msg: Seq<u8>) -> Seq<u8>;

/// Relies on hmac's `Hmac<sha2::Sha256>` (HMAC-SHA-256): the 32-byte tag is
/// a function of the key and the message alone; any key length is accepted.
#[verifier::external_body]
fn hmac_sha256(key: &Vec<u8>, msg: &Vec<u8>) -> (r: Vec<u8>)
    ensures
        r@ == hmac_of(key@, msg@),
        r@.len() == 32,
{
    let mut mac = <hmac::Hmac<sha2::Sha256> as hmac::Mac>::new_from_slice(key.as_slice()).expect(
        "HMAC accepts any key length",
    );
    mac.update(msg.as_slice());
    mac.finalize().into_bytes().to_vec()
}

/// What ChaCha20-Poly1305 encryption returns for a key, nonce and plaintext.
pub uninterp spec fn seal_of(key: Seq<u8>, nonce: Seq<u8>, pt: Seq<u8>) -> Seq<u8>;

/// Relies on chacha20poly1305's `ChaCha20Poly1305` encrypt: deterministic in
/// key, nonce and plaintext, appending the 16-byte authentication tag. It
/// refuses only messages near the keystream limit (more than `u32::MAX`
/// 64-byte blocks), so any message of at most `u32::MAX` bytes succeeds.
#[verifier::external_body]
fn chacha_seal(key: &Vec<u8>, nonce: &Vec<u8>, pt: &Vec<u8>) -> (r: Result<Vec<u8>, ()>)
    requires
        key@.len() == 32,
        nonce@.len() == 12,
    ensures
        pt@.len() <= 0xFFFF_FFFF ==> r is Ok,
        r is Ok ==> r->Ok_0@ == seal_of(key@, nonce@, pt@) && r->Ok_0@.len() == pt@.len() + 16,
{
    let cipher = chacha20poly1305::ChaCha20Poly1305::new(chacha20poly1305::Key::from_slice(
        key.as_slice(),
    ));
    match cipher.encrypt(chacha20poly1305::Nonce::from_slice(nonce.as_slice()), pt.as_slice()) {
        Ok(ct) => Ok(ct),
        Err(_) => Err(()),
    }
}

/// Relies on `ChaCha20Poly1305` decrypt: it succeeds exactly on byte strings
/// that encrypt produces under the same key and nonce (the tag must verify),
/// and then returns the plaintext that was encrypted.
#[verifier::external_body]
fn chacha_open(key: &Vec<u8>, nonce: &Vec<u8>, ct: &Vec<u8>) -> (r: Result<Vec<u8>, ()>)
    requires
        key@.len() == 32,
        nonce@.len() == 12,
    ensures
        forall|pt: Seq<u8>| ct@ == seal_of(key@, nonce@, pt) ==> r is Ok && r->Ok_0@ == pt,
        r is Ok ==> ct@ == seal_of(key@, nonce@, r->Ok_0@) && r->Ok_0@.len() + 16 == ct@.len(),
{
    let cipher = chacha20poly1305::ChaCha20Poly1305::new(chacha20poly1305::Key::from_slice(
        key.as_slice(),
    ));
    match cipher.decrypt(chacha20poly1305::Nonce::from_slice(nonce.as_slice()), ct.as_slice()) {
        Ok(pt) => Ok(pt),
        Err(_) => Err(()),
    }
}

/// An ephemeral P-256 key for one wrap operation. The key is held opaquely:
/// nothing of its value is visible to verified code.
#[verifier::external_body]
pub struct EphemeralKey {
    secret: p256::ecdh::EphemeralSecret,
}

/// Whether bytes are a valid SEC1 encoding of a P-256 public point: what
/// `p256::PublicKey::from_sec1_bytes` accepts, a function of the bytes alone.
pub uninterp spec fn sec1_ok(b: Seq<u8>) -> bool;

/// The ECDH shared secret determined by a pair of P-256 public shares. Each
/// share fixes its scalar, so the agreed 32-byte x coordinate is a function
/// of the two shares, and the same one in either order.
pub uninterp spec fn ecdh_of(share_a: Seq<u8>, share_b: Seq<u8>) -> Seq<u8>;

/// The SEC1 compressed public share of a held ephemeral key.
pub uninterp spec fn eph_pub_of(k: EphemeralKey) -> Seq<u8>;

/// Relies on p256's SEC1 encoding: the compressed encoding of a public key
/// is 33 bytes, one tag byte and the 32-byte x coordinate.
#[verifier::external_body]
fn ephemeral_public_bytes(secret: &EphemeralKey) -> (r: Vec<u8>)
    ensures
        r@ == eph_pub_of(*secret),
        r@.len() == 33,
{
    secret.secret.public_key().to_encoded_point(true).as_bytes().to_vec()
}

/// Relies on p256's `PublicKey::from_sec1_bytes`, which accepts exactly the
/// valid SEC1 point encodings, and `EphemeralSecret::diffie_hellman`, which
/// computes the P-256 ECDH secret of the held key and the peer point: the
/// 32-byte x coordinate fixed by the two public shares in either order.
#[verifier::external_body]
fn ecdh_shared_secret(secret: &EphemeralKey, peer_sec1: &Vec<u8>) -> (r: Result<
    Vec<u8>,
    (),
>)
    ensures
        r is Ok <==> sec1_ok(peer_sec1@),
        r is Ok ==> r->Ok_0@ == ecdh_of(eph_pub_of(*secret), peer_sec1@),
        r is Ok ==> r->Ok_0@ == ecdh_of(peer_sec1@, eph_pub_of(*secret)),
        r is Ok ==> r->Ok_0@.len() == 32,
{
    match p256::PublicKey::from_sec1_bytes(peer_sec1.as_slice()) {
        Ok(pk) => Ok(secret.secret.diffie_hellman(&pk).raw_secret_bytes().to_vec()),
        Err(_) => Err(()),
    }
}

/// A hardware-resident private key held by the key provider. The engine
/// holds it by reference only and never sees raw key material. Platform
/// providers implement this; the ghost functions model that the provider's
/// answers depend only on the key and the peer bytes.
pub trait SecureEnclavePrivateKey: Sized {
    /// The SEC1 compressed encoding of the key's public point.
    spec fn pk_spec(&self) -> Seq<u8>;

    /// The provider's opaque persistent representation of the key.
    spec fn data_spec(&self) -> Seq<u8>;

    fn public_key(&self) -> (r: Vec<u8>)
        ensures
            r@ == self.pk_spec(),
            r@.len() == 33,
    ;

    fn data_representation(&self) -> (r: Vec<u8>)
        ensures
            r@ == self.data_spec(),
    ;

    /// When the provider agrees, the secret it hands back is the P-256 ECDH
    /// value of its own public share and the peer share.
    fn shared_secret_from_key_agreement(&self, public_key_share: &Vec<u8>) -> (r: Result<
        Vec<u8>,
        CryptoError,
    >)
        ensures
            r is Ok ==> r->Ok_0@ == ecdh_of(self.pk_spec(), public_key_share@),
            r is Ok ==> r->Ok_0@ == ecdh_of(public_key_share@, self.pk_spec()),
            r is Ok ==> r->Ok_0@.len() == 32,
    ;
}

/// The capability set the protocol engine needs from a key provider.
pub trait Crypto: Sized {
    type Key: SecureEnclavePrivateKey;

    /// Whether this provider can hold keys on this device.
    spec fn se_available(&self) -> bool;

    fn is_secure_enclave_available(&self) -> (r: bool)
        ensures
            r == self.se_available(),
    ;

    /// Create a key, or load one from its persistent representation.
    fn new_secure_enclave_private_key(
        &self,
        data_representation: Option<&[u8]>,
        access_control: Option<KeyAccessControl>,
    ) -> (r: Result<Self::Key, CryptoError>)
        ensures
            !self.se_available() ==> r is Err,
    ;

    fn new_ephemeral_private_key(&self) -> EphemeralKey;
}

/// The provider for platforms without a secure enclave: it can never create
/// or load a key, but still supplies ephemeral keys for wrapping.
pub struct DefaultCrypto {}

impl DefaultCrypto {
    pub fn new() -> (r: DefaultCrypto) {
        DefaultCrypto {  }
    }
}

/// The key type of [`DefaultCrypto`]. No value of it is ever produced.
pub struct UnavailableKey {}

impl SecureEnclavePrivateKey for UnavailableKey {
    open spec fn pk_spec(&self) -> Seq<u8> {
        Seq::new(33, |i: int| 0u8)
    }

    open spec fn data_spec(&self) -> Seq<u8> {
        Seq::empty()
    }

    fn public_key(&self) -> (r: Vec<u8>) {
        let mut v: Vec<u8> = Vec::new();
        let mut i: usize = 0;
        while i < 33
            invariant
                i <= 33,
                v@ == Seq::new(i as nat, |k: int| 0u8),
            decreases 33 - i,
        {
            v.push(0u8);
            proof {
                assert(v@ =~= Seq::new(i as nat + 1, |k: int| 0u8));
            }
            i += 1;
        }
        v
    }

    fn data_representation(&self) -> (r: Vec<u8>) {
        Vec::new()
    }

    fn shared_secret_from_key_agreement(&self, public_key_share: &Vec<u8>) -> (r: Result<
        Vec<u8>,
        CryptoError,
    >) {
        Err(CryptoError::KeyAgreementFailed("no key is available".to_owned()))
    }
}

impl Crypto for DefaultCrypto {
    type Key = UnavailableKey;

    open spec fn se_available(&self) -> bool {
        false
    }

    fn is_secure_enclave_available(&self) -> (r: bool) {
        false
    }

    fn new_secure_enclave_private_key(
        &self,
        data_representation: Option<&[u8]>,
        access_control: Option<KeyAccessControl>,
    ) -> (r: Result<Self::Key, CryptoError>)
        ensures
            r is Err && r->Err_0 is SEUnsupported,
    {
        Err(CryptoError::SEUnsupported)
    }

    fn new_ephemeral_private_key(&self) -> EphemeralKey {
        random_ephemeral_secret()
    }
}

/// Relies on p256's `EphemeralSecret::random` with rand's `thread_rng`: a
/// fresh ephemeral key; nothing is promised of its value.
#[verifier::external_body]
fn random_ephemeral_secret() -> EphemeralKey {
    EphemeralKey { secret: p256::ecdh::EphemeralSecret::random(&mut rand::thread_rng()) }
}

/// The provider used when none is chosen explicitly.
pub fn create_crypto() -> (r: DefaultCrypto) {
    DefaultCrypto::new()
}

/// The fixed 12-byte all-zero nonce. Every derived key is used for exactly
/// one encryption, since each wrap draws a fresh ephemeral key, so a fixed
/// nonce is sound and keeps the stanza free of an explicit nonce field.
pub open spec fn nonce_spec() -> Seq<u8> {
    Seq::new(12, |i: int| 0u8)
}

fn zero_nonce() -> (r: Vec<u8>)
    ensures
        r@ == nonce_spec(),
{
    let mut v: Vec<u8> = Vec::new();
    let mut i: usize = 0;
    while i < 12
        invariant
            i <= 12,
            v@ == Seq::new(i as nat, |k: int| 0u8),
        decreases 12 - i,
    {
        v.push(0u8);
        proof {
            assert(v@ =~= Seq::new(i as nat + 1, |k: int| 0u8));
        }
        i += 1;
    }
    proof {
        assert(v@ =~= nonce_spec());
    }
    v
}

/// The symmetric key for one wrap or unwrap: HMAC-SHA-256 keyed by the ECDH
/// shared secret, over the domain-separation label (the recipient-stanza-type
/// tag) followed by the ephemeral and recipient key shares. Both ends must
/// agree on this bit for bit; it is part of the wire contract.
pub open spec fn derived_key(ss: Seq<u8>, tag: Seq<char>, eph: Seq<u8>, recip: Seq<u8>) -> Seq<
    u8,
> {
    hmac_of(ss, encode_utf8(tag) + eph + recip)
}

fn derive_wrap_key(ss: &Vec<u8>, tag: &str, eph: &Vec<u8>, recip: &Vec<u8>) -> (r: Vec<u8>)
    ensures
        r@ == derived_key(ss@, tag@, eph@, recip@),
        r@.len() == 32,
{
    let mut msg = tag.as_bytes_vec();
    msg.extend_from_slice(eph.as_slice());
    msg.extend_from_slice(recip.as_slice());
    proof {
        assert(msg@ =~= encode_utf8(tag@) + eph@ + recip@);
    }
    hmac_sha256(ss, &msg)
}

/// Wrap a file key for one recipient: a fresh ephemeral ECDH agreement with
/// the recipient's public point, key derivation bound to the stanza tag and
/// both key shares, then authenticated encryption. Returns the ephemeral
/// public share and the ciphertext. A file key of any other length is an
/// input-validation error, never padded or truncated.
pub fn wrap<C: Crypto>(crypto: &C, file_key: &Vec<u8>, recipient: &Vec<u8>, tag: &str) -> (r:
    Result<(Vec<u8>, Vec<u8>), CryptoError>)
    ensures
        file_key@.len() != FILE_KEY_LEN <==> (r is Err && r->Err_0 is InvalidFileKeyLength),
        file_key@.len() == FILE_KEY_LEN && sec1_ok(recipient@) ==> r is Ok,
        file_key@.len() == FILE_KEY_LEN && !sec1_ok(recipient@) ==> r is Err
            && r->Err_0 is KeyAgreementFailed,
        r is Ok ==> ({
            &&& sec1_ok(recipient@)
            &&& r->Ok_0.0@.len() == 33
            &&& r->Ok_0.1@.len() == FILE_KEY_LEN + 16
            &&& r->Ok_0.1@ == seal_of(
                derived_key(ecdh_of(r->Ok_0.0@, recipient@), tag@, r->Ok_0.0@, recipient@),
                nonce_spec(),
                file_key@,
            )
        }),
{
    if file_key.len() != FILE_KEY_LEN {
        return Err(CryptoError::InvalidFileKeyLength);
    }
    let secret = crypto.new_ephemeral_private_key();
    let eph_pub = ephemeral_public_bytes(&secret);
    let ss = match ecdh_shared_secret(&secret, recipient) {
        Ok(s) => s,
        Err(_) => {
            return Err(CryptoError::KeyAgreementFailed("invalid recipient key".to_owned()));
        },
    };
    let key = derive_wrap_key(&ss, tag, &eph_pub, recipient);
    let nonce = zero_nonce();
    match chacha_seal(&key, &nonce, file_key) {
        Ok(ct) => {
            proof {
                assert(ct@ == seal_of(
                    derived_key(ecdh_of(eph_pub@, recipient@), tag@, eph_pub@, recipient@),
                    nonce_spec(),
                    file_key@,
                ));
            }
            Ok((eph_pub, ct))
        },
        Err(_) => {
            proof {
                assert(false);
            }
            Err(CryptoError::EncryptionFailed)
        },
    }
}

/// Unwrap a wrapped file key with a hardware-held identity: the provider
/// derives the shared secret with the stanza's ephemeral share, the same key
/// derivation is applied, and the ciphertext is decrypted. A failed
/// authentication tag is reported as a decryption failure.
pub fn unwrap<K: SecureEnclavePrivateKey>(
    identity: &K,
    tag: &str,
    ephemeral: &Vec<u8>,
    ciphertext: &Vec<u8>,
) -> (r: Result<Vec<u8>, CryptoError>)
    ensures
        r is Ok ==> ({
            &&& ciphertext@ == seal_of(
                derived_key(
                    ecdh_of(ephemeral@, identity.pk_spec()),
                    tag@,
                    ephemeral@,
                    identity.pk_spec(),
                ),
                nonce_spec(),
                r->Ok_0@,
            )
            &&& r->Ok_0@.len() + 16 == ciphertext@.len()
        }),
{
    let ss = match identity.shared_secret_from_key_agreement(ephemeral) {
        Ok(s) => s,
        Err(e) => {
            return Err(e);
        },
    };
    let recip = identity.public_key();
    let key = derive_wrap_key(&ss, tag, ephemeral, &recip);
    let nonce = zero_nonce();
    match chacha_open(&key, &nonce, ciphertext) {
        Ok(pt) => Ok(pt),
        Err(_) => Err(CryptoError::DecryptionFailed),
    }
}


} // verus!
