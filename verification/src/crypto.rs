//! Payloads that are padded and sealed.
//!
//! A sealed payload is a nonce of twelve bytes and, sealed with AES-256-GCM under it, the length
//! of a padding in two bytes, the padding, and the data.
use crate::buffers;
use crate::random;
use aes_gcm::aead::{Aead, AeadCore, KeyInit, OsRng};
use aes_gcm::{Aes256Gcm, Key, Nonce};
use bytes::{Bytes, BytesMut};
use sha2::{Digest, Sha256};
use vstd::prelude::*;
use vstd::slice::slice_subrange;
use vstd::string::*;

verus! {

/// How long a nonce is.
pub const NONCE_LEN: usize = 12;

/// How much longer sealed bytes are.
pub const TAG_LEN: usize = 16;

/// How many bytes can be sealed at most.
pub const SEAL_LIMIT: u64 = 0x10_0000_0000;

/// The SHA-256 digest of some bytes.
pub uninterp spec fn sha256_digest(data: Seq<u8>) -> Seq<u8>;

/// What AES-256-GCM seals a plaintext to, without associated data.
pub uninterp spec fn aes_gcm_sealed(key: Seq<u8>, nonce: Seq<u8>, plaintext: Seq<u8>) -> Seq<u8>;

/// What AES-256-GCM opens sealed bytes to, without associated data; nothing where they are not
/// authentic.
pub uninterp spec fn aes_gcm_opened(
    key: Seq<u8>,
    nonce: Seq<u8>,
    sealed: Seq<u8>,
) -> Option<Seq<u8>>;

/// `sha2::Sha256`: the digest of `data`, which has 32 bytes.
#[verifier::external_body]
pub(crate) fn sha256(data: &[u8]) -> (r: [u8; 32])
    ensures
        r@ == sha256_digest(data@),
{
    let mut hasher = Sha256::new();
    hasher.update(data);
    hasher.finalize().into()
}

/// `aes_gcm::aead::AeadCore::generate_nonce` with the generator of the operating system: some
/// twelve bytes.
#[verifier::external_body]
fn random_nonce() -> (r: [u8; 12]) {
    Aes256Gcm::generate_nonce(&mut OsRng).into()
}

/// `aes_gcm::aead::Aead::encrypt`: seals `plaintext` unless it is too long. What was sealed opens
/// again to what it was, and is longer by the tag.
#[verifier::external_body]
fn aes_gcm_seal(key: &[u8; 32], nonce: &[u8; 12], plaintext: &[u8]) -> (r: Option<Vec<u8>>)
    requires
        plaintext@.len() + TAG_LEN <= isize::MAX,
    ensures
        r is Some <==> plaintext@.len() <= SEAL_LIMIT,
        r matches Some(sealed) ==> {
            &&& sealed@ == aes_gcm_sealed(key@, nonce@, plaintext@)
            &&& sealed@.len() == plaintext@.len() + TAG_LEN
            &&& aes_gcm_opened(key@, nonce@, sealed@) == Some(plaintext@)
        },
{
    let cipher = Aes256Gcm::new(Key::<Aes256Gcm>::from_slice(key));
    cipher.encrypt(Nonce::from_slice(nonce), plaintext).ok()
}

/// `aes_gcm::aead::Aead::decrypt`: opens `sealed` where it is authentic. What is shorter than the
/// tag is not.
#[verifier::external_body]
fn aes_gcm_open(key: &[u8; 32], nonce: &[u8], sealed: &[u8]) -> (r: Option<Vec<u8>>)
    requires
        nonce@.len() == NONCE_LEN,
    ensures
        r is Some <==> aes_gcm_opened(key@, nonce@, sealed@) is Some,
        r matches Some(plaintext) ==> aes_gcm_opened(key@, nonce@, sealed@) == Some(plaintext@),
        sealed@.len() < TAG_LEN ==> r is None,
{
    let cipher = Aes256Gcm::new(Key::<Aes256Gcm>::from_slice(key));
    cipher.decrypt(Nonce::from_slice(nonce), sealed).ok()
}

/// What payloads are sealed with.
pub struct Cipher {
    key: [u8; 32],
}

impl View for Cipher {
    type V = Seq<u8>;

    /// The key.
    closed spec fn view(&self) -> Seq<u8> {
        self.key@
    }
}

/// The cipher whose key is the digest of `secret`.
pub fn derive_cipher(secret: &str) -> (r: Cipher)
    ensures
        r@ == sha256_digest(secret.spec_bytes()),
{
    Cipher { key: sha256(secret.as_bytes()) }
}

/// The length of the padding for a number that was drawn: from 16 to 512.
pub open spec fn padding_len(drawn: i32) -> int {
    if drawn < 16 {
        16
    } else if drawn > 512 {
        512
    } else {
        drawn as int
    }
}

/// What is sealed for `data`.
pub open spec fn padded(padding: Seq<u8>, data: Seq<u8>) -> Seq<u8> {
    seq![(padding.len() / 256) as u8, (padding.len() % 256) as u8] + padding + data
}

/// The sealed payload of `data`.
pub open spec fn sealed_payload(
    key: Seq<u8>,
    nonce: Seq<u8>,
    padding: Seq<u8>,
    data: Seq<u8>,
) -> Seq<u8> {
    nonce + aes_gcm_sealed(key, nonce, padded(padding, data))
}

/// The data behind its padding, or what is wrong.
pub open spec fn unpadded(plaintext: Seq<u8>) -> Result<Seq<u8>, Seq<char>> {
    let len = plaintext[0] as int * 256 + plaintext[1] as int;
    if plaintext.len() < 2 {
        Err("Plaintext too short"@)
    } else if plaintext.len() < 2 + len {
        Err("Invalid padding"@)
    } else {
        Ok(plaintext.skip(2 + len))
    }
}

/// The data in a sealed payload, or what is wrong.
pub open spec fn opened_payload(key: Seq<u8>, payload: Seq<u8>) -> Result<Seq<u8>, Seq<char>> {
    if payload.len() < 12 {
        Err("Payload too short"@)
    } else {
        match aes_gcm_opened(key, payload.take(12), payload.skip(12)) {
            None => Err("Decryption failed"@),
            Some(plaintext) => unpadded(plaintext),
        }
    }
}

/// What a result holds.
pub open spec fn outcome(r: Result<Vec<u8>, &'static str>) -> Result<Seq<u8>, Seq<char>> {
    match r {
        Ok(data) => Ok(data@),
        Err(message) => Err(message@),
    }
}

/// The length of the padding for a number that was drawn.
pub fn clamp_padding(drawn: i32) -> (r: u16)
    ensures
        r == padding_len(drawn),
        16 <= r <= 512,
        16 <= drawn <= 512 ==> r == drawn,
        drawn < 16 ==> r == 16,
        drawn > 512 ==> r == 512,
{
    if drawn < 16 {
        16
    } else if drawn > 512 {
        512
    } else {
        drawn as u16
    }
}

/// Seals `data` with the given padding and nonce.
pub fn seal_payload(cipher: &Cipher, padding: &[u8], nonce: &[u8; 12], data: &[u8]) -> (r: Bytes)
    requires
        padding@.len() < 65536,
        2 + padding@.len() + data@.len() <= SEAL_LIMIT,
        2 + padding@.len() + data@.len() + TAG_LEN + NONCE_LEN <= isize::MAX,
    ensures
        buffers::bytes_seq(r) == sealed_payload(cipher@, nonce@, padding@, data@),
        buffers::bytes_seq(r).len() == NONCE_LEN + 2 + padding@.len() + data@.len() + TAG_LEN,
        buffers::bytes_seq(r).take(12) == nonce@,
        aes_gcm_opened(cipher@, nonce@, buffers::bytes_seq(r).skip(12)) == Some(
            padded(padding@, data@),
        ),
        opened_payload(cipher@, buffers::bytes_seq(r)) == Ok::<Seq<u8>, Seq<char>>(data@),
{
    let mut plaintext: Vec<u8> = Vec::with_capacity(2 + padding.len() + data.len());
    plaintext.push((padding.len() / 256) as u8);
    plaintext.push((padding.len() % 256) as u8);
    plaintext.extend_from_slice(padding);
    plaintext.extend_from_slice(data);
    proof {
        assert(plaintext@ =~= padded(padding@, data@));
    }
    let sealed: Vec<u8> = aes_gcm_seal(&cipher.key, nonce, plaintext.as_slice()).unwrap();
    let mut out: BytesMut = buffers::bytes_mut_with_capacity(NONCE_LEN + sealed.len());
    buffers::bytes_mut_extend(&mut out, nonce.as_slice());
    buffers::bytes_mut_extend(&mut out, sealed.as_slice());
    proof {
        let whole = buffers::bytes_mut_seq(out);
        assert(whole =~= sealed_payload(cipher@, nonce@, padding@, data@));
        assert(whole.take(12) =~= nonce@);
        assert(whole.skip(12) =~= sealed@);
        assert(padded(padding@, data@).skip(2int + padding@.len()) =~= data@);
    }
    buffers::bytes_mut_freeze(out)
}

/// Seals `data` behind a random padding, whose length comes from the number `drawn`, under a
/// random nonce.
pub fn encrypt_payload(cipher: &Cipher, data: &[u8], drawn: i32) -> (r: Bytes)
    requires
        2 + padding_len(drawn) + data@.len() <= SEAL_LIMIT,
        2 + padding_len(drawn) + data@.len() + TAG_LEN + NONCE_LEN <= isize::MAX,
    ensures
        exists|nonce: Seq<u8>, padding: Seq<u8>|
            {
                &&& nonce.len() == 12
                &&& padding.len() == padding_len(drawn)
                &&& buffers::bytes_seq(r) == #[trigger] sealed_payload(cipher@, nonce, padding, data@)
                &&& buffers::bytes_seq(r).len() == NONCE_LEN + 2 + padding.len() + data@.len()
                    + TAG_LEN
                &&& buffers::bytes_seq(r).take(12) == nonce
                &&& aes_gcm_opened(cipher@, nonce, buffers::bytes_seq(r).skip(12)) == Some(
                    padded(padding, data@),
                )
            },
        opened_payload(cipher@, buffers::bytes_seq(r)) == Ok::<Seq<u8>, Seq<char>>(data@),
{
    let len: u16 = clamp_padding(drawn);
    let mut padding: Vec<u8> = Vec::new();
    padding.resize(len as usize, 0);
    random::random_fill(&mut padding);
    let nonce: [u8; 12] = random_nonce();
    seal_payload(cipher, padding.as_slice(), &nonce, data)
}

/// The data behind its padding.
pub fn strip_padding(plaintext: &[u8]) -> (r: Result<Vec<u8>, &'static str>)
    ensures
        outcome(r) == unpadded(plaintext@),
{
    if plaintext.len() < 2 {
        return Err("Plaintext too short");
    }
    let len: usize = plaintext[0] as usize * 256 + plaintext[1] as usize;
    if plaintext.len() < 2 + len {
        return Err("Invalid padding");
    }
    let data: &[u8] = slice_subrange(plaintext, 2 + len, plaintext.len());
    proof {
        assert(data@ =~= plaintext@.skip(2 + len));
    }
    let mut out: Vec<u8> = Vec::new();
    out.extend_from_slice(data);
    proof {
        assert(out@ =~= data@);
    }
    Ok(out)
}

/// The data in a sealed payload.
pub fn decrypt_payload(cipher: &Cipher, data: &[u8]) -> (r: Result<Vec<u8>, &'static str>)
    ensures
        outcome(r) == opened_payload(cipher@, data@),
        12 <= data@.len() < NONCE_LEN + TAG_LEN ==> outcome(r) == Err::<Seq<u8>, Seq<char>>(
            "Decryption failed"@,
        ),
{
    if data.len() < NONCE_LEN {
        return Err("Payload too short");
    }
    let nonce: &[u8] = slice_subrange(data, 0, NONCE_LEN);
    let sealed: &[u8] = slice_subrange(data, NONCE_LEN, data.len());
    proof {
        assert(nonce@ =~= data@.take(12));
        assert(sealed@ =~= data@.skip(12));
    }
    match aes_gcm_open(&cipher.key, nonce, sealed) {
        Some(plaintext) => strip_padding(plaintext.as_slice()),
        None => Err("Decryption failed"),
    }
}

/// Padding is undone, whatever its bytes are.
pub proof fn lemma_padding_round_trip(padding: Seq<u8>, data: Seq<u8>)
    requires
        padding.len() < 65536,
    ensures
        unpadded(padded(padding, data)) == Ok::<Seq<u8>, Seq<char>>(data),
{
    assert(padded(padding, data).skip(2int + padding.len()) =~= data);
}

/// What is sealed gives the length of the padding in two bytes, big-endian, and then holds the
/// padding and the data as they are.
pub proof fn lemma_padded_layout(padding: Seq<u8>, data: Seq<u8>)
    requires
        padding.len() < 65536,
    ensures
        padded(padding, data).len() == 2 + padding.len() + data.len(),
        padded(padding, data)[0] as int * 256 + padded(padding, data)[1] as int == padding.len(),
        padded(padding, data).subrange(2, 2int + padding.len()) == padding,
        padded(padding, data).skip(2int + padding.len()) == data,
{
    assert(padded(padding, data).subrange(2, 2int + padding.len()) =~= padding);
    assert(padded(padding, data).skip(2int + padding.len()) =~= data);
}

/// How what was sealed is taken apart: the data is what follows as many bytes as the first two say;
/// it is refused where there are not even two, or not as many as they say.
pub proof fn lemma_unpadding(plaintext: Seq<u8>)
    ensures
        plaintext.len() < 2 ==> unpadded(plaintext) == Err::<Seq<u8>, Seq<char>>(
            "Plaintext too short"@,
        ),
        plaintext.len() >= 2 ==> {
            let n = 2 + plaintext[0] as int * 256 + plaintext[1] as int;
            &&& plaintext.len() < n ==> unpadded(plaintext) == Err::<Seq<u8>, Seq<char>>(
                "Invalid padding"@,
            )
            &&& plaintext.len() >= n ==> unpadded(plaintext) == Ok::<Seq<u8>, Seq<char>>(
                plaintext.subrange(n, plaintext.len() as int),
            )
        },
{
    if plaintext.len() >= 2 {
        let n = 2 + plaintext[0] as int * 256 + plaintext[1] as int;
        if plaintext.len() >= n {
            assert(plaintext.subrange(n, plaintext.len() as int) =~= plaintext.skip(n));
        }
    }
}

/// What a payload opens to: its first twelve bytes are the nonce that the rest is opened with, and
/// what that opens to is taken apart. A payload without a nonce is too short, and one that does not
/// open is refused.
pub proof fn lemma_opening(key: Seq<u8>, nonce: Seq<u8>, sealed: Seq<u8>, short: Seq<u8>)
    requires
        nonce.len() == 12,
        short.len() < 12,
    ensures
        opened_payload(key, short) == Err::<Seq<u8>, Seq<char>>("Payload too short"@),
        opened_payload(key, nonce + sealed) == (match aes_gcm_opened(key, nonce, sealed) {
            Some(plaintext) => unpadded(plaintext),
            None => Err::<Seq<u8>, Seq<char>>("Decryption failed"@),
        }),
{
    assert((nonce + sealed).take(12) =~= nonce);
    assert((nonce + sealed).skip(12) =~= sealed);
}

} // verus!
