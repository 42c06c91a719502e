use vstd::prelude::*;
use vstd::utf8::{decode_utf8, encode_utf8, valid_utf8};
use crate::error::CoreError;

verus! {

/// Bytes of nonce at the front of every blob.
pub const NONCE_LEN: usize = 12;

/// Bytes of authentication tag that sealing appends.
pub const TAG_LEN: usize = 16;

/// The longest input that AES-256-GCM sealing accepts: 2^36 - 32 bytes.
pub const MAX_SEAL_LEN: u64 = 68719476704;

/// What SHA-256 gives on `data`.
pub uninterp spec fn sha256_of(data: Seq<u8>) -> Seq<u8>;

/// What AES-256-GCM sealing gives: the ciphertext followed by its tag.
pub uninterp spec fn gcm_seal(key: Seq<u8>, nonce: Seq<u8>, aad: Seq<u8>, data: Seq<u8>) -> Seq<
    u8,
>;

/// What AES-256-GCM opening gives: the plaintext, or nothing where the tag
/// does not authenticate.
pub uninterp spec fn gcm_open(key: Seq<u8>, nonce: Seq<u8>, aad: Seq<u8>, sealed: Seq<u8>) -> Option<
    Seq<u8>,
>;

/// Relies on ring::digest::digest with SHA256: a 32-byte digest that depends
/// on the input alone.
#[verifier::external_body]
fn sha256(data: &[u8]) -> (r: [u8; 32])
    ensures
        r@ == sha256_of(data@),
{
    let d = ring::digest::digest(&ring::digest::SHA256, data);
    let mut out = [0u8; 32];
    out.copy_from_slice(d.as_ref());
    out
}

/// Relies on ring's AES_256_GCM `LessSafeKey::seal_in_place_append_tag`: the
/// ciphertext with its 16-byte tag appended. A 32-byte key is always accepted,
/// and sealing fails only on input longer than ring's `MAX_IN_OUT_LEN`.
#[verifier::external_body]
fn seal(key: &[u8; 32], nonce: [u8; 12], aad: &[u8], data: &[u8]) -> (r: Option<Vec<u8>>)
    ensures
        data@.len() <= MAX_SEAL_LEN ==> r is Some,
        r matches Some(c) ==> c@ == gcm_seal(key@, nonce@, aad@, data@) && c@.len() == data@.len()
            + TAG_LEN,
{
    let unbound = ring::aead::UnboundKey::new(&ring::aead::AES_256_GCM, key).ok()?;
    let k = ring::aead::LessSafeKey::new(unbound);
    let n = ring::aead::Nonce::assume_unique_for_key(nonce);
    let mut in_out = data.to_vec();
    k.seal_in_place_append_tag(n, ring::aead::Aad::from(aad), &mut in_out).ok()?;
    Some(in_out)
}

/// Relies on ring's AES_256_GCM `LessSafeKey::open_in_place`: the plaintext
/// where the tag authenticates, which it does exactly on what sealing with the
/// same key, nonce and associated data gave; the plaintext is then the input
/// less its 16-byte tag.
#[verifier::external_body]
fn open(key: &[u8; 32], nonce: [u8; 12], aad: &[u8], sealed: &[u8]) -> (r: Option<Vec<u8>>)
    ensures
        match r {
            Some(q) => gcm_open(key@, nonce@, aad@, sealed@) == Some(q@) && sealed@ == gcm_seal(
                key@,
                nonce@,
                aad@,
                q@,
            ) && sealed@.len() == q@.len() + TAG_LEN && forall|p: Seq<u8>|
                sealed@ == gcm_seal(key@, nonce@, aad@, p) ==> q@ == p,
            None => gcm_open(key@, nonce@, aad@, sealed@) is None && forall|p: Seq<u8>|
                sealed@ != gcm_seal(key@, nonce@, aad@, p),
        },
{
    let unbound = ring::aead::UnboundKey::new(&ring::aead::AES_256_GCM, key).ok()?;
    let k = ring::aead::LessSafeKey::new(unbound);
    let n = ring::aead::Nonce::assume_unique_for_key(nonce);
    let mut in_out = sealed.to_vec();
    let plain = k.open_in_place(n, ring::aead::Aad::from(aad), &mut in_out).ok()?;
    Some(plain.to_vec())
}

/// Relies on ring's `SystemRandom::fill`: twelve bytes from the system's
/// secure generator, when it can give them.
#[verifier::external_body]
fn random_nonce() -> (r: Option<[u8; 12]>) {
    let mut n = [0u8; 12];
    ring::rand::SecureRandom::fill(&ring::rand::SystemRandom::new(), &mut n).ok()?;
    Some(n)
}

/// Relies on String::from_utf8: the text where the bytes are valid UTF-8.
#[verifier::external_body]
fn utf8_text(bytes: Vec<u8>) -> (r: Option<String>)
    ensures
        r is Some <==> valid_utf8(bytes@),
        r matches Some(s) ==> s@ == decode_utf8(bytes@),
{
    String::from_utf8(bytes).ok()
}

/// The label bound into every blob as associated data: "DonutDB odb".
pub open spec fn aad_label() -> Seq<u8> {
    seq![68u8, 111u8, 110u8, 117u8, 116u8, 68u8, 66u8, 32u8, 111u8, 100u8, 98u8]
}

fn label() -> (r: Vec<u8>)
    ensures
        r@ == aad_label(),
{
    let r: Vec<u8> = vec![68u8, 111u8, 110u8, 117u8, 116u8, 68u8, 66u8, 32u8, 111u8, 100u8, 98u8];
    assert(r@ =~= aad_label());
    r
}

/// The key of a tenant: the SHA-256 digest of the token's UTF-8 bytes.
pub open spec fn key_of(token: Seq<char>) -> Seq<u8> {
    sha256_of(encode_utf8(token))
}

/// `blob` is a nonce followed by `plain` sealed under the token's key with
/// that nonce and the label.
pub open spec fn is_envelope(blob: Seq<u8>, plain: Seq<u8>, token: Seq<char>) -> bool {
    blob.len() >= NONCE_LEN && blob.skip(NONCE_LEN as int) == gcm_seal(
        key_of(token),
        blob.take(NONCE_LEN as int),
        aad_label(),
        plain,
    )
}

/// What opening `blob` with the token gives: too short for a nonce, fails to
/// authenticate, or the plaintext.
pub open spec fn open_spec(blob: Seq<u8>, token: Seq<char>) -> Result<Seq<u8>, CoreError> {
    if blob.len() < NONCE_LEN {
        Err(CoreError::InvalidFormat)
    } else {
        match gcm_open(
            key_of(token),
            blob.take(NONCE_LEN as int),
            aad_label(),
            blob.skip(NONCE_LEN as int),
        ) {
            Some(p) => Ok(p),
            None => Err(CoreError::DecryptionFailed),
        }
    }
}

/// What decrypting `blob` with the token gives as text.
pub open spec fn decrypt_spec(blob: Seq<u8>, token: Seq<char>) -> Result<Seq<char>, CoreError> {
    match open_spec(blob, token) {
        Ok(p) => if valid_utf8(p) {
            Ok(decode_utf8(p))
        } else {
            Err(CoreError::InvalidEncoding)
        },
        Err(e) => Err(e),
    }
}

/// Derives the tenant's 256-bit key from its token.
pub fn derive_key(api_key: &str) -> (r: [u8; 32])
    ensures
        r@ == key_of(api_key@),
{
    sha256(api_key.as_bytes())
}

/// Seals `data` under the token's key with the given nonce, and puts the
/// nonce in front.
pub fn seal_with_nonce(data: &[u8], api_key: &str, nonce: [u8; 12]) -> (r: Result<
    Vec<u8>,
    CoreError,
>)
    ensures
        data@.len() <= MAX_SEAL_LEN ==> r is Ok,
        r matches Ok(out) ==> out@ == nonce@ + gcm_seal(key_of(api_key@), nonce@, aad_label(), data@)
            && out@.len() == NONCE_LEN + data@.len() + TAG_LEN,
        r matches Err(e) ==> e == CoreError::EncryptionError,
{
    let key = derive_key(api_key);
    let aad = label();
    match seal(&key, nonce, aad.as_slice(), data) {
        Some(sealed) => {
            let mut out: Vec<u8> = Vec::new();
            out.extend_from_slice(&nonce);
            out.extend_from_slice(sealed.as_slice());
            Ok(out)
        },
        None => Err(CoreError::EncryptionError),
    }
}

/// Encrypts the text under the token's key with a fresh random nonce; the
/// blob is the nonce followed by the sealed bytes.
pub fn encrypt_data(data: &str, api_key: &str) -> (r: Result<Vec<u8>, CoreError>)
    ensures
        r matches Ok(out) ==> is_envelope(out@, encode_utf8(data@), api_key@) && out@.len()
            == NONCE_LEN + encode_utf8(data@).len() + TAG_LEN,
        r matches Err(e) ==> e == CoreError::EncryptionError,
{
    match random_nonce() {
        Some(nonce) => {
            let r = seal_with_nonce(data.as_bytes(), api_key, nonce);
            if let Ok(out) = &r {
                assert(out@.take(NONCE_LEN as int) =~= nonce@);
                assert(out@.skip(NONCE_LEN as int) =~= gcm_seal(
                    key_of(api_key@),
                    nonce@,
                    aad_label(),
                    encode_utf8(data@),
                ));
            }
            r
        },
        None => Err(CoreError::EncryptionError),
    }
}

/// Opens a blob with the token's key, giving back the sealed bytes.
pub fn open_blob(blob: &[u8], api_key: &str) -> (r: Result<Vec<u8>, CoreError>)
    ensures
        r matches Ok(p) ==> open_spec(blob@, api_key@) == Ok::<Seq<u8>, CoreError>(p@),
        r matches Err(e) ==> open_spec(blob@, api_key@) == Err::<Seq<u8>, CoreError>(e),
        forall|p: Seq<u8>| is_envelope(blob@, p, api_key@) ==> (r matches Ok(q) && q@ == p),
        r matches Ok(q) ==> is_envelope(blob@, q@, api_key@) && blob@.len() == NONCE_LEN + q@.len()
            + TAG_LEN,
{
    if blob.len() < NONCE_LEN {
        return Err(CoreError::InvalidFormat);
    }
    let (head, sealed) = blob.split_at(NONCE_LEN);
    let mut nonce = [0u8; 12];
    let mut i: usize = 0;
    while i < NONCE_LEN
        invariant
            i <= NONCE_LEN,
            blob@.len() >= NONCE_LEN,
            head@ == blob@.take(NONCE_LEN as int),
            forall|k: int| 0 <= k < i ==> nonce@[k] == head@[k],
            nonce@.len() == 12,
        decreases NONCE_LEN - i,
    {
        nonce[i] = head[i];
        i = i + 1;
    }
    assert(nonce@ =~= blob@.take(NONCE_LEN as int));
    assert(sealed@ =~= blob@.skip(NONCE_LEN as int));
    let key = derive_key(api_key);
    let aad = label();
    match open(&key, nonce, aad.as_slice(), sealed) {
        Some(p) => Ok(p),
        None => Err(CoreError::DecryptionFailed),
    }
}

/// Decrypts a blob with the token's key and reads the result as UTF-8 text.
pub fn decrypt_data(encrypted_data: &[u8], api_key: &str) -> (r: Result<String, CoreError>)
    ensures
        r matches Ok(s) ==> decrypt_spec(encrypted_data@, api_key@) == Ok::<Seq<char>, CoreError>(
            s@,
        ),
        r matches Err(e) ==> decrypt_spec(encrypted_data@, api_key@) == Err::<Seq<char>, CoreError>(
            e,
        ),
        forall|s: Seq<char>|
            is_envelope(encrypted_data@, encode_utf8(s), api_key@) ==> (r matches Ok(t) && t@ == s),
        forall|p: Seq<u8>|
            is_envelope(encrypted_data@, p, api_key@) ==> if valid_utf8(p) {
                r matches Ok(t) && t@ == decode_utf8(p)
            } else {
                r == Err::<String, CoreError>(CoreError::InvalidEncoding)
            },
        r matches Ok(t) ==> is_envelope(encrypted_data@, encode_utf8(t@), api_key@)
            && encrypted_data@.len() == NONCE_LEN + encode_utf8(t@).len() + TAG_LEN,
{
    broadcast use
        vstd::utf8::encode_utf8_valid_utf8,
        vstd::utf8::encode_utf8_decode_utf8,
        vstd::utf8::decode_utf8_encode_utf8,
    ;

    match open_blob(encrypted_data, api_key) {
        Ok(p) => match utf8_text(p) {
            Some(s) => Ok(s),
            None => Err(CoreError::InvalidEncoding),
        },
        Err(e) => Err(e),
    }
}

} // verus!
