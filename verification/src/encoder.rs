//! Recipient and identity strings: bech32 encoding and decoding of
//! public-key and private-key-handle payloads with fixed human-readable
//! prefixes.

use vstd::prelude::*;

use bech32::{FromBase32, ToBase32};

use crate::plugin::PluginError;
use crate::strutil::str_eq;

verus! {

/// What bech32 encoding (Bech32 variant, bytes regrouped to base32) returns
/// for a lowercase prefix and a byte payload.
pub uninterp spec fn b32_of(hrp: Seq<char>, data: Seq<u8>) -> Seq<char>;

/// What bech32 decoding returns for a string: the lowercase prefix and the
/// byte payload, or nothing when the string does not decode.
pub uninterp spec fn b32_dec_of(s: Seq<char>) -> Option<(Seq<char>, Seq<u8>)>;

/// A human-readable prefix bech32 accepts, in lowercase form: 1 to 83
/// characters, each in the ASCII range 33..=126, none an uppercase letter.
pub open spec fn hrp_wf(h: Seq<char>) -> bool {
    &&& 1 <= h.len() <= 83
    &&& forall|i: int| 0 <= i < h.len() ==> 33 <= (#[trigger] h[i]) as u32 <= 126
    &&& forall|i: int| 0 <= i < h.len() ==> !(65 <= (#[trigger] h[i]) as u32 <= 90)
}

/// Relies on bech32::encode with Variant::Bech32 over the byte payload's
/// base32 regrouping: for a well-formed lowercase prefix it cannot fail, the
/// result depends on prefix and payload alone, and bech32::decode together
/// with the base32-to-bytes conversion inverts it exactly.
#[verifier::external_body]
fn bech32_encode(hrp: &str, data: &Vec<u8>) -> (r: String)
    requires
        hrp_wf(hrp@),
    ensures
        r@ == b32_of(hrp@, data@),
        b32_dec_of(r@) == Some((hrp@, data@)),
{
    bech32::encode(hrp, data.to_base32(), bech32::Variant::Bech32).expect(
        "a well-formed prefix always encodes",
    )
}

/// Relies on bech32::decode and the base32-to-bytes conversion: the outcome
/// depends on the string alone, the prefix comes back lowercase, the Bech32
/// checksum must verify and padding bits must be zero, and every string that
/// the encoder produces decodes back to the same prefix and payload.
#[verifier::external_body]
fn bech32_decode(s: &str) -> (r: Option<(String, Vec<u8>)>)
    ensures
        r is Some <==> b32_dec_of(s@) is Some,
        r is Some ==> Some((r->Some_0.0@, r->Some_0.1@)) == b32_dec_of(s@),
        forall|h: Seq<char>, d: Seq<u8>|
            s@ == b32_of(h, d) && hrp_wf(h) ==> r is Some && r->Some_0.0@ == h && r->Some_0.1@
                == d,
{
    match bech32::decode(s) {
        Ok((hrp, data, bech32::Variant::Bech32)) => match Vec::<u8>::from_base32(&data) {
            Ok(bytes) => Some((hrp, bytes)),
            Err(_) => None,
        },
        _ => None,
    }
}

/// The kind of recipient a public key is encoded as.
#[derive(Debug, Clone, Copy, PartialEq, Eq, Structural)]
pub enum RecipientType {
    SE,
    P256Tag,
}

/// The bech32 prefix of a recipient kind.
pub open spec fn recipient_hrp(t: RecipientType) -> Seq<char> {
    match t {
        RecipientType::SE => "age1se"@,
        RecipientType::P256Tag => "age1p256tag"@,
    }
}

/// The tag a recipient kind puts in response stanzas.
pub open spec fn recipient_label(t: RecipientType) -> Seq<char> {
    match t {
        RecipientType::SE => "se"@,
        RecipientType::P256Tag => "p256tag"@,
    }
}

impl RecipientType {
    /// The tag written into `recipient-stanza` responses.
    pub fn label(&self) -> (r: &'static str)
        ensures
            r@ == recipient_label(*self),
    {
        match self {
            RecipientType::SE => "se",
            RecipientType::P256Tag => "p256tag",
        }
    }

    fn hrp(&self) -> (r: &'static str)
        ensures
            r@ == recipient_hrp(*self),
    {
        match self {
            RecipientType::SE => "age1se",
            RecipientType::P256Tag => "age1p256tag",
        }
    }
}

/// The tag carried by an incoming `recipient-stanza` during identity-v1.
#[derive(Debug, Clone, Copy, PartialEq, Eq, Structural)]
pub enum RecipientStanzaType {
    P256Tag,
    PivP256,
}

impl RecipientStanzaType {
    /// Parse a stanza tag; tags outside the recognized set are refused.
    pub fn from_str(s: &str) -> (r: Option<RecipientStanzaType>)
        ensures
            s@ == "p256tag"@ ==> r == Some(RecipientStanzaType::P256Tag),
            s@ == "piv-p256"@ ==> r == Some(RecipientStanzaType::PivP256),
            s@ != "p256tag"@ && s@ != "piv-p256"@ ==> r is None,
    {
        proof {
            reveal_strlit("p256tag");
            reveal_strlit("piv-p256");
            assert("p256tag"@.len() != "piv-p256"@.len());
        }
        if str_eq(s, "p256tag") {
            Some(RecipientStanzaType::P256Tag)
        } else if str_eq(s, "piv-p256") {
            Some(RecipientStanzaType::PivP256)
        } else {
            None
        }
    }

    /// The tag's wire form.
    pub fn label(&self) -> (r: &'static str)
        ensures
            *self == RecipientStanzaType::P256Tag ==> r@ == "p256tag"@,
            *self == RecipientStanzaType::PivP256 ==> r@ == "piv-p256"@,
    {
        match self {
            RecipientStanzaType::P256Tag => "p256tag",
            RecipientStanzaType::PivP256 => "piv-p256",
        }
    }
}

/// The recognized prefixes are well-formed.
pub proof fn lemma_hrps_wf()
    ensures
        hrp_wf("age1se"@),
        hrp_wf("age1p256tag"@),
        hrp_wf("age-plugin-se-"@),
{
    reveal_strlit("age1se");
    reveal_strlit("age1p256tag");
    reveal_strlit("age-plugin-se-");
}

/// Encode a recipient: bech32 with the kind's prefix over the SEC1
/// compressed encoding of a P-256 point, which is 33 bytes.
pub fn encode_recipient(public_key: &Vec<u8>, t: RecipientType) -> (r: String)
    requires
        public_key@.len() == 33,
    ensures
        r@ == b32_of(recipient_hrp(t), public_key@),
{
    proof {
        lemma_hrps_wf();
    }
    bech32_encode(t.hrp(), public_key)
}

/// What decoding a recipient string yields, when it yields anything: the
/// 33-byte point encoding and the recipient kind from the prefix.
pub open spec fn rcp_decode_spec(s: Seq<char>) -> Option<(Seq<u8>, RecipientType)> {
    match b32_dec_of(s) {
        Some((h, d)) => if h == "age1se"@ && d.len() == 33 {
            Some((d, RecipientType::SE))
        } else if h == "age1p256tag"@ && d.len() == 33 {
            Some((d, RecipientType::P256Tag))
        } else {
            None
        },
        None => None,
    }
}

/// Decode a recipient string. A prefix outside the recognized set is an
/// unknown-prefix error and nothing is returned with it; a checksum or
/// payload failure is a distinct decoding error.
pub fn decode_recipient(s: &str) -> (r: Result<(Vec<u8>, RecipientType), PluginError>)
    ensures
        match b32_dec_of(s@) {
            None => r is Err && r->Err_0 is Bech32Error,
            Some((h, d)) => {
                if h == "age1se"@ && d.len() == 33 {
                    &&& r is Ok
                    &&& r->Ok_0.0@ == d
                    &&& r->Ok_0.1 == RecipientType::SE
                } else if h == "age1p256tag"@ && d.len() == 33 {
                    &&& r is Ok
                    &&& r->Ok_0.0@ == d
                    &&& r->Ok_0.1 == RecipientType::P256Tag
                } else if h != "age1se"@ && h != "age1p256tag"@ {
                    r is Err && r->Err_0 is UnknownHRP
                } else {
                    r is Err && r->Err_0 is Bech32Error
                }
            },
        },
        forall|d: Seq<u8>, t: RecipientType|
            d.len() == 33 && s@ == b32_of(recipient_hrp(t), d) ==> r is Ok && r->Ok_0.0@ == d
                && r->Ok_0.1 == t,
{
    proof {
        lemma_hrps_wf();
        reveal_strlit("age1se");
        reveal_strlit("age1p256tag");
        assert("age1se"@.len() != "age1p256tag"@.len());
    }
    match bech32_decode(s) {
        None => {
            proof {
                assert forall|d: Seq<u8>, t: RecipientType|
                    d.len() == 33 && s@ == b32_of(recipient_hrp(t), d) implies false by {
                    assert(hrp_wf(recipient_hrp(t)));
                }
            }
            Err(PluginError::Bech32Error)
        },
        Some((h, d)) => {
            if str_eq(h.as_str(), "age1se") {
                if d.len() == 33 {
                    Ok((d, RecipientType::SE))
                } else {
                    Err(PluginError::Bech32Error)
                }
            } else if str_eq(h.as_str(), "age1p256tag") {
                if d.len() == 33 {
                    Ok((d, RecipientType::P256Tag))
                } else {
                    Err(PluginError::Bech32Error)
                }
            } else {
                Err(PluginError::UnknownHRP(h))
            }
        },
    }
}

/// Encode an identity: bech32 with the identity prefix over the provider's
/// opaque key representation, never the raw private scalar.
pub fn encode_identity(key_data: &Vec<u8>) -> (r: String)
    ensures
        r@ == b32_of("age-plugin-se-"@, key_data@),
{
    proof {
        lemma_hrps_wf();
    }
    bech32_encode("age-plugin-se-", key_data)
}

/// What decoding an identity string yields, when it yields anything.
pub open spec fn id_decode_spec(s: Seq<char>) -> Option<Seq<u8>> {
    match b32_dec_of(s) {
        Some((h, d)) => if h == "age-plugin-se-"@ {
            Some(d)
        } else {
            None
        },
        None => None,
    }
}

/// Decode an identity string: the prefix must be the identity prefix.
pub fn decode_identity(s: &str) -> (r: Result<Vec<u8>, PluginError>)
    ensures
        match b32_dec_of(s@) {
            None => r is Err && r->Err_0 is Bech32Error,
            Some((h, d)) => {
                if h == "age-plugin-se-"@ {
                    r is Ok && r->Ok_0@ == d
                } else {
                    r is Err && r->Err_0 is UnknownHRP
                }
            },
        },
        forall|d: Seq<u8>|
            s@ == b32_of("age-plugin-se-"@, d) ==> r is Ok && r->Ok_0@ == d,
{
    proof {
        lemma_hrps_wf();
    }
    match bech32_decode(s) {
        None => {
            proof {
                assert forall|d: Seq<u8>| s@ == b32_of("age-plugin-se-"@, d) implies false by {
                    assert(hrp_wf("age-plugin-se-"@));
                }
            }
            Err(PluginError::Bech32Error)
        },
        Some((h, d)) => {
            if str_eq(h.as_str(), "age-plugin-se-") {
                Ok(d)
            } else {
                Err(PluginError::UnknownHRP(h))
            }
        },
    }
}

} // verus!
