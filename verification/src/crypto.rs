//! Cryptographic layer: Argon2id key derivation, XChaCha20-Poly1305
//! authenticated encryption, and the two framings of a ciphertext that the
//! vault stores (a `Sealed` pair of base64 strings, and `.enc` file bytes).
//!
//! The primitives themselves come from the `argon2`, `chacha20poly1305`,
//! `base64` and `rand` crates and are reached through the trusted items at
//! the top of this file; everything built on them is verified.

use vstd::prelude::*;
use chacha20poly1305::aead::{Aead, KeyInit};
use rand::RngCore;
use base64::Engine;

verus! {

/// Length of an Argon2id salt.
pub const SALT_LEN: usize = 16;

/// Length of a key (DEK and KEK).
pub const KEY_LEN: usize = 32;

/// Length of an XChaCha20 nonce.
pub const NONCE_LEN: usize = 24;

/// Length of the Poly1305 authentication tag appended to every ciphertext.
pub const TAG_LEN: usize = 16;

// ───────────────────────── outside types ─────────────────────────

#[verifier::external_type_specification]
#[verifier::external_body]
pub struct ExArgon2Error(argon2::Error);

#[verifier::external_type_specification]
#[verifier::external_body]
pub struct ExAeadError(chacha20poly1305::aead::Error);

#[verifier::external_type_specification]
#[verifier::external_body]
pub struct ExRandError(rand::Error);

#[verifier::external_type_specification]
#[verifier::external_body]
pub struct ExDecodeError(base64::DecodeError);

// ───────────────────────── names of outside results ─────────────────────────

/// The 32-byte Argon2id (version 0x13) output for a password, a salt and
/// the memory (KiB), iteration and parallelism costs.
pub uninterp spec fn argon2id_key(
    password: Seq<u8>,
    salt: Seq<u8>,
    m_cost: u32,
    t_cost: u32,
    p_cost: u32,
) -> Seq<u8>;

/// The XChaCha20-Poly1305 ciphertext (with its tag) of a plaintext under a
/// key and a nonce, with empty associated data.
pub uninterp spec fn xchacha_seal(key: Seq<u8>, nonce: Seq<u8>, plaintext: Seq<u8>) -> Seq<u8>;

/// The outcome of XChaCha20-Poly1305 decryption with empty associated data:
/// the plaintext, or `None` when the tag does not authenticate.
pub uninterp spec fn xchacha_open(key: Seq<u8>, nonce: Seq<u8>, ciphertext: Seq<u8>) -> Option<
    Seq<u8>,
>;

/// The character of a 6-bit value in the standard base64 alphabet
/// (`A`-`Z`, `a`-`z`, `0`-`9`, `+`, `/`).
pub open spec fn base64_char(v: u8) -> char {
    if v < 26 {
        ((65 + v) as u32) as char
    } else if v < 52 {
        ((97 + v - 26) as u32) as char
    } else if v < 62 {
        ((48 + v - 52) as u32) as char
    } else if v == 62 {
        '+'
    } else {
        '/'
    }
}

/// The standard (padded) base64 encoding of some bytes: every 3 bytes
/// become 4 characters, and a final group of 1 or 2 bytes is padded with `=`.
pub open spec fn base64_encoding(bytes: Seq<u8>) -> Seq<char>
    decreases bytes.len(),
{
    if bytes.len() == 0 {
        Seq::<char>::empty()
    } else if bytes.len() == 1 {
        seq![base64_char(bytes[0] >> 2), base64_char((bytes[0] & 3) << 4), '=', '=']
    } else if bytes.len() == 2 {
        seq![
            base64_char(bytes[0] >> 2),
            base64_char(((bytes[0] & 3) << 4) | (bytes[1] >> 4)),
            base64_char((bytes[1] & 15) << 2),
            '=',
        ]
    } else {
        seq![
            base64_char(bytes[0] >> 2),
            base64_char(((bytes[0] & 3) << 4) | (bytes[1] >> 4)),
            base64_char(((bytes[1] & 15) << 2) | (bytes[2] >> 6)),
            base64_char(bytes[2] & 63),
        ] + base64_encoding(bytes.skip(3))
    }
}

/// The bytes that a standard base64 text decodes to, or `None` when it is
/// not valid base64.
pub uninterp spec fn base64_decoding(text: Seq<char>) -> Option<Seq<u8>>;

/// Argon2id parameters that `argon2::Params::new` accepts for a 32-byte output.
pub open spec fn argon2_params_valid(m_cost: u32, t_cost: u32, p_cost: u32) -> bool {
    &&& m_cost >= 8
    &&& m_cost >= p_cost * 8
    &&& t_cost >= 1
    &&& 1 <= p_cost <= 0xFF_FFFF
}

/// Password and salt lengths that `Argon2::hash_password_into` accepts.
pub open spec fn argon2_inputs_valid(password: Seq<u8>, salt: Seq<u8>) -> bool {
    &&& password.len() <= 0xFFFF_FFFF
    &&& 8 <= salt.len() <= 0xFFFF_FFFF
}

/// Plaintexts short enough for XChaCha20-Poly1305 (fewer than 2^32 - 1 blocks of 64 bytes).
pub open spec fn aead_len_ok(len: nat) -> bool {
    len / 64 < 0xFFFF_FFFF
}

// ───────────────────────── trusted items ─────────────────────────

/// `argon2::Params::new` (with a 32-byte output), `Argon2::new` (Argon2id,
/// version 0x13) and `Argon2::hash_password_into`, as one derivation.
/// Claims: the call succeeds exactly when `Params::new` accepts the costs and
/// `hash_password_into` accepts the password and salt lengths (the checks in
/// their source), and the key is then the named Argon2id output.
/// `Params::new` computes `p_cost * 8` in `u32`, so larger `p_cost` is left out.
#[verifier::external_body]
fn argon2id_hash(
    password: &[u8],
    salt: &[u8],
    m_cost: u32,
    t_cost: u32,
    p_cost: u32,
) -> (r: Result<[u8; KEY_LEN], argon2::Error>)
    requires
        p_cost <= 0x1FFF_FFFF,
    ensures
        r is Ok <==> (argon2_params_valid(m_cost, t_cost, p_cost) && argon2_inputs_valid(password@, salt@)),
        r matches Ok(k) ==> k@ == argon2id_key(password@, salt@, m_cost, t_cost, p_cost),
{
    let params = argon2::Params::new(m_cost, t_cost, p_cost, Some(KEY_LEN))?;
    let argon = argon2::Argon2::new(argon2::Algorithm::Argon2id, argon2::Version::V0x13, params);
    let mut key = [0u8; KEY_LEN];
    argon.hash_password_into(password, salt, &mut key)?;
    Ok(key)
}

/// `XChaCha20Poly1305::new` and `Aead::encrypt` with empty associated data.
/// Claims: it fails only for a plaintext of 2^32 - 1 or more 64-byte blocks
/// (the check in the cipher's source); otherwise the result is the named
/// ciphertext, 16 bytes longer than the plaintext (the appended tag), and
/// decrypting it with the same key and nonce gives the plaintext back.
#[verifier::external_body]
fn xchacha_encrypt(
    key: &[u8; KEY_LEN],
    nonce: &[u8],
    plaintext: &[u8],
) -> (r: Result<Vec<u8>, chacha20poly1305::aead::Error>)
    requires
        nonce@.len() == NONCE_LEN,
        plaintext@.len() + TAG_LEN <= usize::MAX,
    ensures
        r is Ok <==> aead_len_ok(plaintext@.len()),
        r matches Ok(ct) ==> {
            &&& ct@ == xchacha_seal(key@, nonce@, plaintext@)
            &&& ct@.len() == plaintext@.len() + TAG_LEN
            &&& xchacha_open(key@, nonce@, ct@) == Some(plaintext@)
        },
{
    let cipher = chacha20poly1305::XChaCha20Poly1305::new(key.into());
    cipher.encrypt(chacha20poly1305::XNonce::from_slice(nonce), plaintext)
}

/// `XChaCha20Poly1305::new` and `Aead::decrypt` with empty associated data.
/// Claims: the result is the named decryption outcome; a success strips the
/// 16-byte tag.
#[verifier::external_body]
fn xchacha_decrypt(
    key: &[u8; KEY_LEN],
    nonce: &[u8],
    ciphertext: &[u8],
) -> (r: Result<Vec<u8>, chacha20poly1305::aead::Error>)
    requires
        nonce@.len() == NONCE_LEN,
    ensures
        match r {
            Ok(pt) => xchacha_open(key@, nonce@, ciphertext@) == Some(pt@),
            Err(_) => xchacha_open(key@, nonce@, ciphertext@) is None,
        },
        r matches Ok(pt) ==> ciphertext@.len() == pt@.len() + TAG_LEN,
{
    let cipher = chacha20poly1305::XChaCha20Poly1305::new(key.into());
    cipher.decrypt(chacha20poly1305::XNonce::from_slice(nonce), ciphertext)
}

/// `OsRng::try_fill_bytes`: fills the buffer from the operating system's
/// random source. Claims only that the length is unchanged; the bytes are chance.
#[verifier::external_body]
fn os_random_fill(buf: &mut [u8]) -> (r: Result<(), rand::Error>)
    ensures
        final(buf)@.len() == old(buf)@.len(),
{
    rand::rngs::OsRng.try_fill_bytes(buf)
}

/// `base64::engine::general_purpose::STANDARD.encode`.
/// Claims: the result is the standard padded encoding spelled out in
/// `base64_encoding`, and decoding it gives the bytes back.
/// Inputs whose encoded length overflows `usize` (where it panics) are left out.
#[verifier::external_body]
pub(crate) fn base64_encode(bytes: &[u8]) -> (s: String)
    requires
        bytes@.len() <= usize::MAX / 2,
    ensures
        s@ == base64_encoding(bytes@),
        base64_decoding(s@) == Some(bytes@),
{
    base64::engine::general_purpose::STANDARD.encode(bytes)
}

/// `base64::engine::general_purpose::STANDARD.decode` of a string's bytes.
/// Claims: the result is the named decoding outcome.
#[verifier::external_body]
pub(crate) fn base64_decode(text: &str) -> (r: Result<Vec<u8>, base64::DecodeError>)
    ensures
        match r {
            Ok(v) => base64_decoding(text@) == Some(v@),
            Err(_) => base64_decoding(text@) is None,
        },
{
    base64::engine::general_purpose::STANDARD.decode(text.as_bytes())
}

// ───────────────────────── library types ─────────────────────────

/// Why a cryptographic operation failed.
#[derive(Debug, Clone, Copy, PartialEq, Eq)]
pub enum CryptoError {
    /// Argon2 refused the cost parameters.
    KdfParams,
    /// Argon2 refused the password or salt.
    KeyDerivation,
    /// The operating system's random source failed.
    Random,
    /// The plaintext is too long to encrypt.
    Encryption,
    /// A nonce is not 24 bytes long.
    BadNonceLength,
    /// Authentication failed: wrong key, or damaged data.
    Decryption,
    /// A field is not valid base64.
    Base64,
    /// An encrypted file is shorter than its nonce.
    FileTooShort,
}

/// Argon2id parameters (memory in KiB, iterations, parallelism).
#[derive(Debug, Clone, Copy, PartialEq, Eq)]
pub struct KdfParams {
    /// Memory cost, in KiB.
    pub m_cost: u32,
    /// Number of iterations.
    pub t_cost: u32,
    /// Degree of parallelism.
    pub p_cost: u32,
}

impl Default for KdfParams {
    /// The OWASP baseline: 19 MiB of memory, 2 iterations, parallelism 1.
    fn default() -> (p: Self)
        ensures
            p.m_cost == 19_456,
            p.t_cost == 2,
            p.p_cost == 1,
    {
        KdfParams { m_cost: 19_456, t_cost: 2, p_cost: 1 }
    }
}

/// A ciphertext kept in a JSON field: base64 of the nonce and base64 of the
/// ciphertext with its tag.
#[derive(Debug)]
pub struct Sealed {
    /// base64 of the nonce.
    pub nonce: String,
    /// base64 of the ciphertext and tag.
    pub ct: String,
}

// ───────────────────────── specifications ─────────────────────────

/// What `derive_key` returns.
pub open spec fn derive_key_spec(password: Seq<u8>, salt: Seq<u8>, params: KdfParams) -> Result<
    Seq<u8>,
    CryptoError,
> {
    if !argon2_params_valid(params.m_cost, params.t_cost, params.p_cost) {
        Err(CryptoError::KdfParams)
    } else if !argon2_inputs_valid(password, salt) {
        Err(CryptoError::KeyDerivation)
    } else {
        Ok(argon2id_key(password, salt, params.m_cost, params.t_cost, params.p_cost))
    }
}

/// What `decrypt_raw` returns.
pub open spec fn decrypt_raw_spec(key: Seq<u8>, nonce: Seq<u8>, ct: Seq<u8>) -> Result<
    Seq<u8>,
    CryptoError,
> {
    if nonce.len() != NONCE_LEN {
        Err(CryptoError::BadNonceLength)
    } else {
        match xchacha_open(key, nonce, ct) {
            Some(pt) => Ok(pt),
            None => Err(CryptoError::Decryption),
        }
    }
}

/// What `unseal` returns for the two base64 fields of a `Sealed`.
pub open spec fn unseal_spec(key: Seq<u8>, nonce_b64: Seq<char>, ct_b64: Seq<char>) -> Result<
    Seq<u8>,
    CryptoError,
> {
    match base64_decoding(nonce_b64) {
        None => Err(CryptoError::Base64),
        Some(nonce) => match base64_decoding(ct_b64) {
            None => Err(CryptoError::Base64),
            Some(ct) => decrypt_raw_spec(key, nonce, ct),
        },
    }
}

/// What `decrypt_file_bytes` returns: the first 24 bytes are the nonce, the
/// rest the ciphertext with its tag.
pub open spec fn decrypt_file_spec(key: Seq<u8>, data: Seq<u8>) -> Result<Seq<u8>, CryptoError> {
    if data.len() < NONCE_LEN {
        Err(CryptoError::FileTooShort)
    } else {
        decrypt_raw_spec(key, data.take(NONCE_LEN as int), data.skip(NONCE_LEN as int))
    }
}

// ───────────────────────── operations ─────────────────────────

/// Fills `buf` from the operating system's random source.
pub fn fill_random(buf: &mut [u8]) -> (r: Result<(), CryptoError>)
    ensures
        final(buf)@.len() == old(buf)@.len(),
        r is Err ==> r == Err::<(), CryptoError>(CryptoError::Random),
{
    match os_random_fill(buf) {
        Ok(()) => Ok(()),
        Err(_) => Err(CryptoError::Random),
    }
}

/// A fresh random salt; fails only when the operating system's random source does.
pub fn random_salt() -> (r: Result<[u8; SALT_LEN], CryptoError>)
    ensures
        r is Err ==> r == Err::<[u8; SALT_LEN], CryptoError>(CryptoError::Random),
{
    let mut s = [0u8; SALT_LEN];
    fill_random(&mut s)?;
    Ok(s)
}

/// A fresh random data key (DEK); fails only when the operating system's random source does.
pub fn random_dek() -> (r: Result<[u8; KEY_LEN], CryptoError>)
    ensures
        r is Err ==> r == Err::<[u8; KEY_LEN], CryptoError>(CryptoError::Random),
{
    let mut k = [0u8; KEY_LEN];
    fill_random(&mut k)?;
    Ok(k)
}

/// Derives a 32-byte key from a password and a salt with Argon2id.
pub fn derive_key(password: &[u8], salt: &[u8], params: &KdfParams) -> (r: Result<
    [u8; KEY_LEN],
    CryptoError,
>)
    ensures
        match r {
            Ok(k) => derive_key_spec(password@, salt@, *params) == Ok::<Seq<u8>, CryptoError>(k@),
            Err(e) => derive_key_spec(password@, salt@, *params) == Err::<Seq<u8>, CryptoError>(e),
        },
{
    if params.p_cost > 0xFF_FFFF {
        return Err(CryptoError::KdfParams);
    }
    match argon2id_hash(password, salt, params.m_cost, params.t_cost, params.p_cost) {
        Ok(k) => Ok(k),
        Err(_) => {
            if params.m_cost < 8 || params.m_cost < params.p_cost * 8 || params.t_cost < 1
                || params.p_cost < 1 {
                Err(CryptoError::KdfParams)
            } else {
                Err(CryptoError::KeyDerivation)
            }
        },
    }
}

/// Encrypts `plaintext` under `key` with a fresh random nonce; returns
/// (nonce, ciphertext with tag).
pub fn encrypt_raw(key: &[u8; KEY_LEN], plaintext: &[u8]) -> (r: Result<
    (Vec<u8>, Vec<u8>),
    CryptoError,
>)
    requires
        plaintext@.len() + TAG_LEN <= usize::MAX,
    ensures
        match r {
            Ok((nonce, ct)) => {
                &&& nonce@.len() == NONCE_LEN
                &&& ct@ == xchacha_seal(key@, nonce@, plaintext@)
                &&& ct@.len() == plaintext@.len() + TAG_LEN
                &&& decrypt_raw_spec(key@, nonce@, ct@) == Ok::<Seq<u8>, CryptoError>(plaintext@)
            },
            Err(e) => e == CryptoError::Random || (e == CryptoError::Encryption && !aead_len_ok(
                plaintext@.len(),
            )),
        },
        !aead_len_ok(plaintext@.len()) ==> r is Err,
{
    let mut nonce_bytes = [0u8; NONCE_LEN];
    fill_random(&mut nonce_bytes)?;
    let nonce = nonce_bytes.as_slice();
    match xchacha_encrypt(key, nonce, plaintext) {
        Ok(ct) => {
            let n = vstd::slice::slice_to_vec(nonce);
            Ok((n, ct))
        },
        Err(_) => Err(CryptoError::Encryption),
    }
}

/// Decrypts `ct` under `key` and `nonce`; fails when the nonce is not 24
/// bytes or the tag does not authenticate (wrong key, or damaged data).
pub fn decrypt_raw(key: &[u8; KEY_LEN], nonce: &[u8], ct: &[u8]) -> (r: Result<
    Vec<u8>,
    CryptoError,
>)
    ensures
        match r {
            Ok(pt) => decrypt_raw_spec(key@, nonce@, ct@) == Ok::<Seq<u8>, CryptoError>(pt@),
            Err(e) => decrypt_raw_spec(key@, nonce@, ct@) == Err::<Seq<u8>, CryptoError>(e),
        },
        r matches Ok(pt) ==> ct@.len() == pt@.len() + TAG_LEN,
{
    if nonce.len() != NONCE_LEN {
        return Err(CryptoError::BadNonceLength);
    }
    match xchacha_decrypt(key, nonce, ct) {
        Ok(pt) => Ok(pt),
        Err(_) => Err(CryptoError::Decryption),
    }
}

/// Encrypts `plaintext` into a `Sealed` (for a JSON field, such as the wrapped DEK).
pub fn seal(key: &[u8; KEY_LEN], plaintext: &[u8]) -> (r: Result<Sealed, CryptoError>)
    requires
        plaintext@.len() + TAG_LEN <= usize::MAX / 2,
    ensures
        match r {
            Ok(s) => {
                &&& unseal_spec(key@, s.nonce@, s.ct@) == Ok::<Seq<u8>, CryptoError>(plaintext@)
                &&& base64_decoding(s.nonce@) matches Some(n) && n.len() == NONCE_LEN
                &&& base64_decoding(s.ct@) matches Some(c) && c.len() == plaintext@.len() + TAG_LEN
                &&& exists|n: Seq<u8>|
                    #![trigger base64_encoding(n)]
                    n.len() == NONCE_LEN && s.nonce@ == base64_encoding(n) && s.ct@
                        == base64_encoding(xchacha_seal(key@, n, plaintext@))
            },
            Err(e) => e == CryptoError::Random || (e == CryptoError::Encryption && !aead_len_ok(
                plaintext@.len(),
            )),
        },
        !aead_len_ok(plaintext@.len()) ==> r is Err,
{
    let (nonce, ct) = encrypt_raw(key, plaintext)?;
    let n = base64_encode(nonce.as_slice());
    let c = base64_encode(ct.as_slice());
    Ok(Sealed { nonce: n, ct: c })
}

/// Decrypts a `Sealed`: decodes both base64 fields, then decrypts.
pub fn unseal(key: &[u8; KEY_LEN], s: &Sealed) -> (r: Result<Vec<u8>, CryptoError>)
    ensures
        match r {
            Ok(pt) => unseal_spec(key@, s.nonce@, s.ct@) == Ok::<Seq<u8>, CryptoError>(pt@),
            Err(e) => unseal_spec(key@, s.nonce@, s.ct@) == Err::<Seq<u8>, CryptoError>(e),
        },
        r matches Ok(pt) ==> base64_decoding(s.ct@) matches Some(c) && c.len() == pt@.len() + TAG_LEN,
{
    let nonce = match base64_decode(s.nonce.as_str()) {
        Ok(v) => v,
        Err(_) => return Err(CryptoError::Base64),
    };
    let ct = match base64_decode(s.ct.as_str()) {
        Ok(v) => v,
        Err(_) => return Err(CryptoError::Base64),
    };
    decrypt_raw(key, nonce.as_slice(), ct.as_slice())
}

/// Encrypts `plaintext` into `.enc` file bytes: nonce (24 bytes) followed by
/// the ciphertext and its 16-byte tag.
pub fn encrypt_file_bytes(key: &[u8; KEY_LEN], plaintext: &[u8]) -> (r: Result<
    Vec<u8>,
    CryptoError,
>)
    requires
        plaintext@.len() + NONCE_LEN + TAG_LEN <= usize::MAX,
    ensures
        match r {
            Ok(data) => {
                &&& data@.len() == NONCE_LEN + plaintext@.len() + TAG_LEN
                &&& data@.skip(NONCE_LEN as int) == xchacha_seal(
                    key@,
                    data@.take(NONCE_LEN as int),
                    plaintext@,
                )
                &&& decrypt_file_spec(key@, data@) == Ok::<Seq<u8>, CryptoError>(plaintext@)
            },
            Err(e) => e == CryptoError::Random || (e == CryptoError::Encryption && !aead_len_ok(
                plaintext@.len(),
            )),
        },
        !aead_len_ok(plaintext@.len()) ==> r is Err,
{
    let (nonce, ct) = encrypt_raw(key, plaintext)?;
    let mut out: Vec<u8> = Vec::new();
    let mut i: usize = 0;
    while i < nonce.len()
        invariant
            i <= nonce@.len(),
            out@ == nonce@.take(i as int),
        decreases nonce@.len() - i,
    {
        out.push(nonce[i]);
        i = i + 1;
        assert(nonce@.take(i as int) == nonce@.take(i - 1).push(nonce@[i - 1]));
    }
    let mut j: usize = 0;
    while j < ct.len()
        invariant
            j <= ct@.len(),
            nonce@.len() == NONCE_LEN,
            out@ == nonce@ + ct@.take(j as int),
        decreases ct@.len() - j,
    {
        out.push(ct[j]);
        j = j + 1;
        assert(ct@.take(j as int) == ct@.take(j - 1).push(ct@[j - 1]));
    }
    proof {
        assert(nonce@.take(NONCE_LEN as int) =~= nonce@);
        assert(ct@.take(ct@.len() as int) =~= ct@);
        assert(out@.take(NONCE_LEN as int) =~= nonce@);
        assert(out@.skip(NONCE_LEN as int) =~= ct@);
    }
    Ok(out)
}

/// Decrypts `.enc` file bytes (the first 24 bytes are the nonce).
pub fn decrypt_file_bytes(key: &[u8; KEY_LEN], data: &[u8]) -> (r: Result<Vec<u8>, CryptoError>)
    ensures
        match r {
            Ok(pt) => decrypt_file_spec(key@, data@) == Ok::<Seq<u8>, CryptoError>(pt@),
            Err(e) => decrypt_file_spec(key@, data@) == Err::<Seq<u8>, CryptoError>(e),
        },
        r matches Ok(pt) ==> data@.len() == NONCE_LEN + pt@.len() + TAG_LEN,
        data@.len() < NONCE_LEN + TAG_LEN ==> r is Err,
{
    if data.len() < NONCE_LEN {
        return Err(CryptoError::FileTooShort);
    }
    let nonce = vstd::slice::slice_subrange(data, 0, NONCE_LEN);
    let ct = vstd::slice::slice_subrange(data, NONCE_LEN, data.len());
    assert(nonce@ =~= data@.take(NONCE_LEN as int));
    assert(ct@ =~= data@.skip(NONCE_LEN as int));
    decrypt_raw(key, nonce, ct)
}

/// A ciphertext never equals its plaintext: it is 16 bytes longer.
pub proof fn lemma_ciphertext_differs(key: Seq<u8>, nonce: Seq<u8>, plaintext: Seq<u8>, ct: Seq<u8>)
    requires
        ct.len() == plaintext.len() + TAG_LEN,
    ensures
        ct != plaintext,
{
}

} // verus!
