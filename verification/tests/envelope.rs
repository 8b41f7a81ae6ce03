use base64::Engine;
use bech32::ToBase32;
use p256::elliptic_curve::sec1::ToEncodedPoint;

use rage_plugin_se::codec::MemStream;
use rage_plugin_se::crypto::{
    unwrap, wrap, Crypto, CryptoError, DefaultCrypto, EphemeralKey, KeyAccessControl,
    SecureEnclavePrivateKey,
};
use rage_plugin_se::encoder::{
    decode_identity, decode_recipient, encode_identity, encode_recipient, RecipientStanzaType,
    RecipientType,
};
use rage_plugin_se::plugin::{Plugin, PluginError};

/// A software stand-in for a hardware-held key, for exercising the identity
/// side against the recipient side.
struct SoftKey {
    secret: p256::SecretKey,
}

impl SecureEnclavePrivateKey for SoftKey {
    fn pk_spec(&self) -> vstd::seq::Seq<u8> {
        panic!()
    }

    fn data_spec(&self) -> vstd::seq::Seq<u8> {
        panic!()
    }

    fn public_key(&self) -> Vec<u8> {
        self.secret
            .public_key()
            .to_encoded_point(true)
            .as_bytes()
            .to_vec()
    }

    fn data_representation(&self) -> Vec<u8> {
        self.secret.to_bytes().to_vec()
    }

    fn shared_secret_from_key_agreement(
        &self,
        public_key_share: &Vec<u8>,
    ) -> Result<Vec<u8>, CryptoError> {
        let peer = p256::PublicKey::from_sec1_bytes(public_key_share.as_slice())
            .map_err(|_| CryptoError::KeyAgreementFailed("invalid peer point".to_string()))?;
        Ok(
            p256::ecdh::diffie_hellman(self.secret.to_nonzero_scalar(), peer.as_affine())
                .raw_secret_bytes()
                .to_vec(),
        )
    }
}

/// A software provider whose keys are ordinary P-256 scalars.
struct SoftCrypto {}

impl Crypto for SoftCrypto {
    type Key = SoftKey;

    fn se_available(&self) -> bool {
        panic!()
    }

    fn is_secure_enclave_available(&self) -> bool {
        true
    }

    fn new_secure_enclave_private_key(
        &self,
        data_representation: Option<&[u8]>,
        _access_control: Option<KeyAccessControl>,
    ) -> Result<SoftKey, CryptoError> {
        match data_representation {
            Some(bytes) => match p256::SecretKey::from_slice(bytes) {
                Ok(secret) => Ok(SoftKey { secret }),
                Err(_) => Err(CryptoError::SEKeyLoadFailed("bad scalar".to_string())),
            },
            None => Ok(SoftKey {
                secret: p256::SecretKey::random(&mut rand::thread_rng()),
            }),
        }
    }

    fn new_ephemeral_private_key(&self) -> EphemeralKey {
        DefaultCrypto::new().new_ephemeral_private_key()
    }
}

fn new_soft_key() -> SoftKey {
    SoftKey {
        secret: p256::SecretKey::random(&mut rand::thread_rng()),
    }
}

#[test]
fn recipient_encoding_roundtrip_both_types() {
    let key = new_soft_key();
    let pk = key.public_key();
    for t in [RecipientType::SE, RecipientType::P256Tag] {
        let encoded = encode_recipient(&pk, t);
        let (decoded, ty) = decode_recipient(&encoded).expect("own encoding must decode");
        assert_eq!(decoded, pk);
        assert_eq!(ty, t);
    }
}

#[test]
fn recipient_prefixes_are_as_specified() {
    let key = new_soft_key();
    let pk = key.public_key();
    assert!(encode_recipient(&pk, RecipientType::SE).starts_with("age1se1"));
    assert!(encode_recipient(&pk, RecipientType::P256Tag).starts_with("age1p256tag1"));
}

#[test]
fn identity_encoding_roundtrip() {
    let data: Vec<u8> = (0u8..32).collect();
    let encoded = encode_identity(&data);
    assert!(encoded.starts_with("age-plugin-se-1"));
    let decoded = decode_identity(&encoded).expect("own encoding must decode");
    assert_eq!(decoded, data);
}

#[test]
fn unknown_prefix_is_rejected() {
    let payload = [5u8; 33];
    let other = bech32::encode("age1other", payload.to_base32(), bech32::Variant::Bech32)
        .expect("valid prefix");
    match decode_recipient(&other) {
        Err(PluginError::UnknownHRP(h)) => assert_eq!(h, "age1other"),
        other => panic!("expected unknown prefix, got {:?}", other.map(|_| ())),
    }
    match decode_identity(&other) {
        Err(PluginError::UnknownHRP(_)) => {}
        other => panic!("expected unknown prefix, got {:?}", other.map(|_| ())),
    }
}

#[test]
fn corrupted_checksum_is_a_distinct_error() {
    let key = new_soft_key();
    let encoded = encode_recipient(&key.public_key(), RecipientType::SE);
    let mut corrupted: Vec<char> = encoded.chars().collect();
    let last = corrupted.len() - 1;
    corrupted[last] = if corrupted[last] == 'q' { 'p' } else { 'q' };
    let corrupted: String = corrupted.into_iter().collect();
    match decode_recipient(&corrupted) {
        Err(PluginError::Bech32Error) => {}
        other => panic!("expected bech32 error, got {:?}", other.map(|_| ())),
    }
}

#[test]
fn stanza_tag_parsing() {
    assert_eq!(
        RecipientStanzaType::from_str("p256tag"),
        Some(RecipientStanzaType::P256Tag)
    );
    assert_eq!(
        RecipientStanzaType::from_str("piv-p256"),
        Some(RecipientStanzaType::PivP256)
    );
    assert_eq!(RecipientStanzaType::from_str("se"), None);
    assert_eq!(RecipientStanzaType::from_str(""), None);
}

#[test]
fn wrap_then_unwrap_recovers_file_key() {
    let identity = new_soft_key();
    let pk = identity.public_key();
    let file_key = [42u8; 16].to_vec();
    let crypto = DefaultCrypto::new();
    let (eph, ct) = wrap(&crypto, &file_key, &pk, "se").expect("wrap must succeed");
    assert_eq!(eph.len(), 33);
    assert_eq!(ct.len(), 32);
    let recovered = unwrap(&identity, "se", &eph, &ct).expect("unwrap must succeed");
    assert_eq!(recovered, file_key);
}

#[test]
fn unwrap_with_wrong_tag_fails() {
    let identity = new_soft_key();
    let pk = identity.public_key();
    let file_key = [42u8; 16].to_vec();
    let crypto = DefaultCrypto::new();
    let (eph, ct) = wrap(&crypto, &file_key, &pk, "se").expect("wrap must succeed");
    match unwrap(&identity, "p256tag", &eph, &ct) {
        Err(CryptoError::DecryptionFailed) => {}
        other => panic!("expected decryption failure, got {:?}", other.map(|_| ())),
    }
}

#[test]
fn tampered_ciphertext_fails_decryption() {
    let identity = new_soft_key();
    let pk = identity.public_key();
    let file_key = [3u8; 16].to_vec();
    let crypto = DefaultCrypto::new();
    let (eph, mut ct) = wrap(&crypto, &file_key, &pk, "se").expect("wrap must succeed");
    ct[5] ^= 0x01;
    match unwrap(&identity, "se", &eph, &ct) {
        Err(CryptoError::DecryptionFailed) => {}
        other => panic!("expected decryption failure, got {:?}", other.map(|_| ())),
    }
}

#[test]
fn tampered_ephemeral_share_fails() {
    let identity = new_soft_key();
    let pk = identity.public_key();
    let file_key = [3u8; 16].to_vec();
    let crypto = DefaultCrypto::new();
    let (mut eph, ct) = wrap(&crypto, &file_key, &pk, "se").expect("wrap must succeed");
    eph[10] ^= 0x01;
    assert!(unwrap(&identity, "se", &eph, &ct).is_err());
}

#[test]
fn wrap_rejects_wrong_file_key_length() {
    let identity = new_soft_key();
    let pk = identity.public_key();
    let crypto = DefaultCrypto::new();
    for len in [0usize, 15, 17, 32] {
        match wrap(&crypto, &vec![0u8; len], &pk, "se") {
            Err(CryptoError::InvalidFileKeyLength) => {}
            other => panic!("expected length error, got {:?}", other.map(|_| ())),
        }
    }
}

#[test]
fn generate_key_without_enclave_is_unsupported() {
    let plugin = Plugin::new(DefaultCrypto::new());
    match plugin.generate_key(
        KeyAccessControl::AnyBiometryOrPasscode,
        RecipientType::SE,
        "2024-01-01T00:00:00+00:00",
    ) {
        Err(PluginError::SEUnsupported) => {}
        other => panic!("expected unsupported, got {:?}", other.map(|_| ())),
    }
}

#[test]
fn generate_key_with_soft_provider_writes_key_file() {
    let plugin = Plugin::new(SoftCrypto {});
    let (contents, recipient) = plugin
        .generate_key(
            KeyAccessControl::NoneRequired,
            RecipientType::SE,
            "2024-01-01T00:00:00+00:00",
        )
        .expect("soft provider can create keys");
    assert!(recipient.starts_with("age1se1"));
    assert!(contents.contains("# created: 2024-01-01T00:00:00+00:00"));
    assert!(contents.contains("# access control: none"));
    assert!(contents.contains(&recipient));
    assert!(contents.contains("age-plugin-se-1"));
}

#[test]
fn generate_recipients_yields_nothing() {
    let plugin = Plugin::new(DefaultCrypto::new());
    let out = plugin
        .generate_recipients("whatever", RecipientType::SE)
        .expect("always succeeds");
    assert_eq!(out, "");
}

#[test]
fn access_control_labels() {
    assert_eq!(KeyAccessControl::NoneRequired.label(), "none");
    assert_eq!(
        KeyAccessControl::CurrentBiometryAndPasscode.label(),
        "current biometry and passcode"
    );
}

/// Full envelope trip through both roles: the recipient session wraps a file
/// key, the identity session unwraps it.
#[test]
fn identity_v1_end_to_end_recovers_file_key() {
    let b64 = base64::engine::general_purpose::STANDARD;
    let identity_key = new_soft_key();
    let identity_str = encode_identity(&identity_key.data_representation());
    let recipient = encode_recipient(&identity_key.public_key(), RecipientType::SE);
    let file_key = [11u8; 16];

    // Recipient session: wrap the file key.
    let input = vec![
        format!("add-recipient {}", recipient),
        "".to_string(),
        "wrap-file-key".to_string(),
        b64.encode(file_key),
        "".to_string(),
        "done".to_string(),
        "".to_string(),
    ];
    let mut stream = MemStream::new(input);
    let mut plugin = Plugin::new(DefaultCrypto::new());
    plugin.run_recipient_v1(&mut stream);
    let out = stream.into_output();
    let header: Vec<String> = out[0].split(' ').map(|s| s.to_string()).collect();
    assert_eq!(header[0], "recipient-stanza");
    let ciphertext_line = out[1].clone();

    // Identity session: unwrap it with the held identity.
    let input = vec![
        format!("add-identity {}", identity_str),
        "".to_string(),
        format!("recipient-stanza {} {} {}", header[1], header[2], header[3]),
        ciphertext_line,
        "".to_string(),
        "done".to_string(),
        "".to_string(),
    ];
    let mut stream = MemStream::new(input);
    let mut plugin = Plugin::new(SoftCrypto {});
    plugin.run_identity_v1(&mut stream);
    let out = stream.into_output();
    assert_eq!(out[0], "file-key 0");
    let recovered = b64.decode(&out[1]).expect("file key body is base64");
    assert_eq!(recovered, file_key);
    assert_eq!(out[2], "");
    assert_eq!(out[3], "done");
    assert_eq!(out[4], "");
}

/// An unrecognized stanza tag is answered with `unsupported`; a wrong
/// identity is answered with `error-decrypt`.
#[test]
fn identity_v1_unsupported_and_error_decrypt() {
    let b64 = base64::engine::general_purpose::STANDARD;
    let identity_key = new_soft_key();
    let other_key = new_soft_key();
    let identity_str = encode_identity(&identity_key.data_representation());
    let recipient = encode_recipient(&other_key.public_key(), RecipientType::SE);
    let file_key = [12u8; 16];

    let input = vec![
        format!("add-recipient {}", recipient),
        "".to_string(),
        "wrap-file-key".to_string(),
        b64.encode(file_key),
        "".to_string(),
        "done".to_string(),
        "".to_string(),
    ];
    let mut stream = MemStream::new(input);
    let mut plugin = Plugin::new(DefaultCrypto::new());
    plugin.run_recipient_v1(&mut stream);
    let out = stream.into_output();
    let header: Vec<String> = out[0].split(' ').map(|s| s.to_string()).collect();
    let ciphertext_line = out[1].clone();

    let input = vec![
        format!("add-identity {}", identity_str),
        "".to_string(),
        format!("recipient-stanza 0 strange-tag {}", header[3]),
        ciphertext_line.clone(),
        "".to_string(),
        format!("recipient-stanza 1 se {}", header[3]),
        ciphertext_line,
        "".to_string(),
        "done".to_string(),
        "".to_string(),
    ];
    let mut stream = MemStream::new(input);
    let mut plugin = Plugin::new(SoftCrypto {});
    plugin.run_identity_v1(&mut stream);
    let out = stream.into_output();
    assert_eq!(out[0], "unsupported 0");
    assert_eq!(out[1], "");
    assert_eq!(out[2], "error-decrypt 1");
    assert_eq!(out[3], "");
    assert_eq!(out[4], "done");
    assert_eq!(out[5], "");
}

/// An identity that cannot be resolved is reported immediately and the
/// session continues.
#[test]
fn identity_v1_bad_identity_reported() {
    let input = vec![
        "add-identity not-an-identity".to_string(),
        "".to_string(),
        "done".to_string(),
        "".to_string(),
    ];
    let mut stream = MemStream::new(input);
    let mut plugin = Plugin::new(SoftCrypto {});
    plugin.run_identity_v1(&mut stream);
    let out = stream.into_output();
    let header: Vec<&str> = out[0].split(' ').collect();
    assert_eq!(header[0], "error-identity");
    assert_eq!(header[1], "0");
    assert_eq!(out[out.len() - 2], "done");
}

#[test]
fn wrap_with_invalid_recipient_point_fails_agreement() {
    let crypto = DefaultCrypto::new();
    let not_a_point = vec![0xFFu8; 33];
    match wrap(&crypto, &vec![0u8; 16], &not_a_point, "se") {
        Err(CryptoError::KeyAgreementFailed(_)) => {}
        other => panic!("expected agreement failure, got {:?}", other.map(|_| ())),
    }
}

/// Two rejected identities are reported immediately, in order, each with
/// its own ordinal.
#[test]
fn identity_v1_two_bad_identities_reported_in_order() {
    let input = vec![
        "add-identity first-bad-identity".to_string(),
        "".to_string(),
        "add-identity second-bad-identity".to_string(),
        "".to_string(),
        "done".to_string(),
        "".to_string(),
    ];
    let mut stream = MemStream::new(input);
    let mut plugin = Plugin::new(SoftCrypto {});
    plugin.run_identity_v1(&mut stream);
    let out = stream.into_output();
    assert!(out[0].starts_with("error-identity 0"));
    assert!(out[3].starts_with("error-identity 1"));
    assert_eq!(out[out.len() - 2], "done");
}

/// A recognized tag with no identity held at all is a decryption failure,
/// not an unsupported stanza: identities carry no tag of their own.
#[test]
fn identity_v1_recognized_tag_without_identities_is_error_decrypt() {
    let b64 = base64::engine::general_purpose::STANDARD;
    let input = vec![
        format!("recipient-stanza 0 se {}", b64.encode([2u8; 33])),
        b64.encode([0u8; 32]),
        "".to_string(),
        "done".to_string(),
        "".to_string(),
    ];
    let mut stream = MemStream::new(input);
    let mut plugin = Plugin::new(SoftCrypto {});
    plugin.run_identity_v1(&mut stream);
    let out = stream.into_output();
    assert_eq!(out[0], "error-decrypt 0");
    assert_eq!(out[2], "done");
}
