use vstd::prelude::*;
use vstd::string::StringSliceAdditionalSpecFns;
use vstd::utf8::encode_utf8;
use base64::Engine;
use ed25519_dalek::Verifier;
use crate::error::NiphasError;
use crate::text::{
    chars_of, find_char, first_index, lemma_first_index, lemma_first_index_none, push_str,
    str_eq, string_of,
};

verus! {

// ---------------------------------------------------------------------------
// Outside computations
// ---------------------------------------------------------------------------

/// What `base64::prelude::BASE64_STANDARD.decode` gives for `text`: the decoded bytes,
/// or, where the engine refuses the text, the message of its `DecodeError`.
pub uninterp spec fn base64_standard_decode(text: Seq<u8>) -> Result<Seq<u8>, Seq<char>>;

/// What `ed25519_dalek::VerifyingKey::from_bytes` says of `key`: `None` where it accepts
/// the key as a public key, else the message of its error.
pub uninterp spec fn ed25519_key_refusal(key: Seq<u8>) -> Option<Seq<char>>;

/// Whether `ed25519_dalek`'s `Verifier::verify` accepts `sig` over `msg` under the public
/// key `key` (false where the key itself is refused).
pub uninterp spec fn ed25519_accepts(key: Seq<u8>, msg: Seq<u8>, sig: Seq<u8>) -> bool;

/// Calls `BASE64_STANDARD.decode`; the result, the bytes or the decode error's message,
/// is `base64_standard_decode` of the text's bytes.
#[verifier::external_body]
fn base64_decode(text: &str) -> (r: Result<Vec<u8>, String>)
    ensures
        match r {
            Ok(v) => base64_standard_decode(text.spec_bytes()) == Ok::<Seq<u8>, Seq<char>>(v@),
            Err(m) => base64_standard_decode(text.spec_bytes()) == Err::<Seq<u8>, Seq<char>>(m@),
        },
{
    base64::prelude::BASE64_STANDARD.decode(text).map_err(|e| e.to_string())
}

/// Calls `VerifyingKey::from_bytes` and reports whether it accepted the key, or the
/// error's message: `ed25519_key_refusal` of the key.
#[verifier::external_body]
fn ed25519_key_check(key: &[u8; 32]) -> (r: Result<(), String>)
    ensures
        match r {
            Ok(()) => ed25519_key_refusal(key@) is None,
            Err(m) => ed25519_key_refusal(key@) == Some(m@),
        },
{
    ed25519_dalek::VerifyingKey::from_bytes(key).map(|_| ()).map_err(|e| e.to_string())
}

/// Decodes the key with `VerifyingKey::from_bytes` and checks the signature with
/// `Verifier::verify`.
#[verifier::external_body]
fn ed25519_verify(key: &[u8; 32], msg: &[u8], sig: &[u8; 64]) -> (r: bool)
    ensures
        r == ed25519_accepts(key@, msg@, sig@),
{
    match ed25519_dalek::VerifyingKey::from_bytes(key) {
        Ok(k) => k.verify(msg, &ed25519_dalek::Signature::from_bytes(sig)).is_ok(),
        Err(_) => false,
    }
}

// ---------------------------------------------------------------------------
// Signatures and keys
// ---------------------------------------------------------------------------

/// A signature from a `.narinfo` Sig field.
///
/// Format: `<keyname>:<base64-signature>`
#[derive(Debug, Clone, PartialEq)]
pub struct NarSignature {
    pub key_name: String,
    /// The 64 signature bytes.
    pub signature: [u8; 64],
}

/// What `NarSignature::parse` accepts: a key name, a `:`, and base64 of 64 bytes.
pub open spec fn parse_signature_spec(s: Seq<char>) -> Option<(Seq<char>, Seq<u8>)> {
    match first_index(s, ':') {
        None => None,
        Some(k) => match base64_standard_decode(encode_utf8(s.skip(k + 1))) {
            Ok(d) => if d.len() == 64 {
                Some((s.take(k), d))
            } else {
                None
            },
            Err(_) => None,
        },
    }
}

/// What `TrustedKey::parse` accepts: a name, a `:`, and base64 of a valid 32-byte key.
pub open spec fn parse_trusted_key_spec(s: Seq<char>) -> Option<(Seq<char>, Seq<u8>)> {
    match first_index(s, ':') {
        None => None,
        Some(k) => match base64_standard_decode(encode_utf8(s.skip(k + 1))) {
            Ok(d) => if d.len() == 32 && ed25519_key_refusal(d) is None {
                Some((s.take(k), d))
            } else {
                None
            },
            Err(_) => None,
        },
    }
}

/// Whether `m` is the message `NarSignature::parse` gives for `s`; a base64 refusal's
/// own message follows its prefix.
pub open spec fn signature_error(s: Seq<char>, m: Seq<char>) -> bool {
    match first_index(s, ':') {
        None => m == "signature missing ':' separator: '"@ + s + "'"@,
        Some(k) => match base64_standard_decode(encode_utf8(s.skip(k + 1))) {
            Err(t) => m == "invalid base64 in signature: "@ + t,
            Ok(_) => m == "signature must be 64 bytes"@,
        },
    }
}

/// Whether `m` is the message `TrustedKey::parse` gives for `s`; the messages of the
/// base64 and Ed25519 refusals follow their prefixes.
pub open spec fn trusted_key_error(s: Seq<char>, m: Seq<char>) -> bool {
    match first_index(s, ':') {
        None => m == "key missing ':' separator: '"@ + s + "'"@,
        Some(k) => match base64_standard_decode(encode_utf8(s.skip(k + 1))) {
            Err(t) => m == "invalid base64 in public key: "@ + t,
            Ok(d) => if d.len() != 32 {
                m == "public key must be 32 bytes"@
            } else {
                match ed25519_key_refusal(d) {
                    Some(t) => m == "invalid Ed25519 public key: "@ + t,
                    None => false,
                }
            },
        },
    }
}

/// Splits `s` at its first `:`.
fn split_colon(s: &str) -> (r: Option<(String, String)>)
    ensures
        match r {
            None => first_index(s@, ':') is None,
            Some((a, b)) => first_index(s@, ':') matches Some(k) && a@ == s@.take(k) && b@
                == s@.skip(k + 1),
        },
{
    let v = chars_of(s);
    match find_char(&v, 0, v.len(), ':') {
        None => {
            proof {
                lemma_first_index_none(s@, ':');
            }
            None
        },
        Some(k) => {
            proof {
                lemma_first_index(s@, ':', k as int);
            }
            let a = string_of(&v, 0, k);
            let b = string_of(&v, k + 1, v.len());
            proof {
                assert(a@ =~= s@.take(k as int));
                assert(b@ =~= s@.skip(k + 1));
            }
            Some((a, b))
        },
    }
}

fn array64(d: &Vec<u8>) -> (r: [u8; 64])
    requires
        d@.len() == 64,
    ensures
        r@ == d@,
{
    let mut r: [u8; 64] = [0u8; 64];
    let mut i: usize = 0;
    while i < 64
        invariant
            i <= 64,
            d@.len() == 64,
            forall|k: int| 0 <= k < i ==> r@[k] == d@[k],
        decreases 64 - i,
    {
        r.set(i, d[i]);
        i += 1;
    }
    proof {
        assert(r@ =~= d@);
    }
    r
}

fn array32(d: &Vec<u8>) -> (r: [u8; 32])
    requires
        d@.len() == 32,
    ensures
        r@ == d@,
{
    let mut r: [u8; 32] = [0u8; 32];
    let mut i: usize = 0;
    while i < 32
        invariant
            i <= 32,
            d@.len() == 32,
            forall|k: int| 0 <= k < i ==> r@[k] == d@[k],
        decreases 32 - i,
    {
        r.set(i, d[i]);
        i += 1;
    }
    proof {
        assert(r@ =~= d@);
    }
    r
}

impl NarSignature {
    /// Parse a `Sig` field value like `cache.nixos.org-1:AAAA...base64...==`.
    pub fn parse(s: &str) -> (r: Result<NarSignature, NiphasError>)
        ensures
            match r {
                Ok(sig) => parse_signature_spec(s@) == Some((sig.key_name@, sig.signature@)),
                Err(e) => parse_signature_spec(s@) is None && (e matches NiphasError::NarInfoParse(m)
                    && signature_error(s@, m@)),
            },
    {
        let (key_name, sig_b64) = match split_colon(s) {
            Some(x) => x,
            None => {
                let mut msg = String::new();
                push_str(&mut msg, "signature missing ':' separator: '");
                push_str(&mut msg, s);
                push_str(&mut msg, "'");
                return Err(NiphasError::NarInfoParse(msg));
            },
        };
        let sig_bytes = match base64_decode(sig_b64.as_str()) {
            Ok(b) => b,
            Err(cause) => {
                let mut msg = String::new();
                push_str(&mut msg, "invalid base64 in signature: ");
                push_str(&mut msg, cause.as_str());
                return Err(NiphasError::NarInfoParse(msg));
            },
        };
        if sig_bytes.len() != 64 {
            return Err(NiphasError::NarInfoParse("signature must be 64 bytes".to_string()));
        }
        let signature = array64(&sig_bytes);
        Ok(NarSignature { key_name, signature })
    }
}

/// A trusted public key for verifying narinfo signatures.
///
/// Format: `cache.nixos.org-1:6NCHdD59X431o0gWypbMrAURkbJ16ZPMQFGspcDShjY=`
#[derive(Debug, Clone)]
pub struct TrustedKey {
    pub name: String,
    /// The 32 bytes of the Ed25519 public key.
    pub pubkey: [u8; 32],
}

impl TrustedKey {
    /// Parse a public key string like `cache.nixos.org-1:6NCHdD...=`.
    pub fn parse(s: &str) -> (r: Result<TrustedKey, NiphasError>)
        ensures
            match r {
                Ok(k) => parse_trusted_key_spec(s@) == Some((k.name@, k.pubkey@)),
                Err(e) => parse_trusted_key_spec(s@) is None && (e matches NiphasError::SignatureVerification(
                    m,
                ) && trusted_key_error(s@, m@)),
            },
    {
        let (name, key_b64) = match split_colon(s) {
            Some(x) => x,
            None => {
                let mut msg = String::new();
                push_str(&mut msg, "key missing ':' separator: '");
                push_str(&mut msg, s);
                push_str(&mut msg, "'");
                return Err(NiphasError::SignatureVerification(msg));
            },
        };
        let key_bytes = match base64_decode(key_b64.as_str()) {
            Ok(b) => b,
            Err(cause) => {
                let mut msg = String::new();
                push_str(&mut msg, "invalid base64 in public key: ");
                push_str(&mut msg, cause.as_str());
                return Err(NiphasError::SignatureVerification(msg));
            },
        };
        if key_bytes.len() != 32 {
            return Err(NiphasError::SignatureVerification("public key must be 32 bytes".to_string()));
        }
        let pubkey = array32(&key_bytes);
        match ed25519_key_check(&pubkey) {
            Ok(()) => {},
            Err(cause) => {
                let mut msg = String::new();
                push_str(&mut msg, "invalid Ed25519 public key: ");
                push_str(&mut msg, cause.as_str());
                return Err(NiphasError::SignatureVerification(msg));
            },
        }
        Ok(TrustedKey { name, pubkey })
    }
}

/// Some signature names a trusted key and that key accepts it over `msg`.
pub open spec fn some_signature_verifies(
    msg: Seq<u8>,
    signatures: Seq<NarSignature>,
    trusted_keys: Seq<TrustedKey>,
) -> bool {
    exists|i: int, j: int|
        0 <= i < signatures.len() && 0 <= j < trusted_keys.len() && signatures[i].key_name@
            == trusted_keys[j].name@ && #[trigger] ed25519_accepts(
            trusted_keys[j].pubkey@,
            msg,
            signatures[i].signature@,
        )
}

/// Verify a narinfo's signatures against a set of trusted keys.
///
/// Returns Ok if at least one signature matches a trusted key.
/// Returns Err if no signature matches.
pub fn verify_narinfo(
    fingerprint: &str,
    signatures: &[NarSignature],
    trusted_keys: &[TrustedKey],
) -> (r: Result<(), NiphasError>)
    ensures
        r is Ok <==> some_signature_verifies(fingerprint.spec_bytes(), signatures@, trusted_keys@),
        r matches Err(e) ==> e matches NiphasError::SignatureVerification(m) && m@
            == "no valid signature found matching any trusted key"@,
{
    let msg = fingerprint.as_bytes();
    let mut i: usize = 0;
    while i < signatures.len()
        invariant
            i <= signatures@.len(),
            msg@ == fingerprint.spec_bytes(),
            forall|a: int, b: int|
                0 <= a < i && 0 <= b < trusted_keys@.len() && signatures@[a].key_name@
                    == trusted_keys@[b].name@ ==> !#[trigger] ed25519_accepts(
                    trusted_keys@[b].pubkey@,
                    msg@,
                    signatures@[a].signature@,
                ),
        decreases signatures@.len() - i,
    {
        let sig = &signatures[i];
        let mut j: usize = 0;
        while j < trusted_keys.len()
            invariant
                i < signatures@.len(),
                j <= trusted_keys@.len(),
                *sig == signatures@[i as int],
                msg@ == fingerprint.spec_bytes(),
                forall|a: int, b: int|
                    0 <= a < i && 0 <= b < trusted_keys@.len() && signatures@[a].key_name@
                        == trusted_keys@[b].name@ ==> !#[trigger] ed25519_accepts(
                        trusted_keys@[b].pubkey@,
                        msg@,
                        signatures@[a].signature@,
                    ),
                forall|b: int|
                    0 <= b < j && sig.key_name@ == trusted_keys@[b].name@ ==> !#[trigger] ed25519_accepts(
                        trusted_keys@[b].pubkey@,
                        msg@,
                        sig.signature@,
                    ),
            decreases trusted_keys@.len() - j,
        {
            let key = &trusted_keys[j];
            if str_eq(sig.key_name.as_str(), key.name.as_str()) {
                if ed25519_verify(&key.pubkey, msg, &sig.signature) {
                    return Ok(());
                }
            }
            j += 1;
        }
        i += 1;
    }
    Err(
        NiphasError::SignatureVerification(
            "no valid signature found matching any trusted key".to_string(),
        ),
    )
}

} // verus!
