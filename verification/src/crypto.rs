//! Authenticated encryption, key derivation and the system's random source.
//!
//! Every encrypted object has the same layout: a nonce of 24 bytes, then the
//! message sealed under XChaCha20-Poly1305, which ends in a tag of 16 bytes.

use crate::error::{Error, ErrorKind};
use vstd::prelude::*;
use vstd::slice::*;

verus! {

/// Bytes of a nonce.
pub const NONCE_LEN: usize = 24;

/// Bytes of an authentication tag.
pub const TAG_LEN: usize = 16;

/// Bytes that sealing adds to a message: nonce and tag.
pub const OVERHEAD: usize = 40;

/// The longest message that `seal` is sure to accept.
pub const MAX_MESSAGE: usize = 0xffff_ffff;

/// What XChaCha20-Poly1305 encryption makes of a message under a key and a
/// nonce: the ciphertext followed by its tag.
pub uninterp spec fn sealed(key: Seq<u8>, nonce: Seq<u8>, message: Seq<u8>) -> Seq<u8>;

/// What XChaCha20-Poly1305 decryption makes of a ciphertext with its tag:
/// the message, or `None` where the tag does not fit.
pub uninterp spec fn opened(key: Seq<u8>, nonce: Seq<u8>, boxed: Seq<u8>) -> Option<Seq<u8>>;

/// Calls `encrypt` of `chacha20poly1305::XChaCha20Poly1305`, without
/// associated data. The cipher refuses only messages of 64 * (2^32 - 1)
/// bytes and more. The contract names the result, says that it is 16 bytes
/// longer than the message, and that decryption under the same key and
/// nonce gives the message back.
#[verifier::external_body]
fn aead_seal(key: &[u8; 32], nonce: &[u8; 24], message: &[u8]) -> (r: Option<Vec<u8>>)
    ensures
        message@.len() <= MAX_MESSAGE ==> r is Some,
        r matches Some(c) ==> {
            &&& c@ == sealed(key@, nonce@, message@)
            &&& c@.len() == message@.len() + TAG_LEN
            &&& opened(key@, nonce@, c@) == Some(message@)
        },
{
    let cipher = <chacha20poly1305::XChaCha20Poly1305 as chacha20poly1305::KeyInit>::new(
        chacha20poly1305::Key::from_slice(key),
    );
    chacha20poly1305::aead::Aead::encrypt(
        &cipher,
        chacha20poly1305::XNonce::from_slice(nonce),
        message,
    ).ok()
}

/// Calls `decrypt` of `chacha20poly1305::XChaCha20Poly1305`, without
/// associated data. The contract names the result and says that a message
/// that comes out is 16 bytes shorter than what went in.
#[verifier::external_body]
fn aead_open(key: &[u8; 32], nonce: &[u8; 24], boxed: &[u8]) -> (r: Option<Vec<u8>>)
    ensures
        match r {
            Some(m) => opened(key@, nonce@, boxed@) == Some(m@) && m@.len() + TAG_LEN
                == boxed@.len(),
            None => opened(key@, nonce@, boxed@) is None,
        },
{
    let cipher = <chacha20poly1305::XChaCha20Poly1305 as chacha20poly1305::KeyInit>::new(
        chacha20poly1305::Key::from_slice(key),
    );
    chacha20poly1305::aead::Aead::decrypt(
        &cipher,
        chacha20poly1305::XNonce::from_slice(nonce),
        boxed,
    ).ok()
}

/// Calls `getrandom::getrandom` on a buffer of `N` bytes. Nothing is
/// promised of the bytes; `None` says that the random source failed.
#[verifier::external_body]
fn system_random<const N: usize>() -> (r: Option<[u8; N]>) {
    let mut buf = [0u8; N];
    match getrandom::getrandom(&mut buf) {
        Ok(()) => Some(buf),
        Err(_) => None,
    }
}

/// Cost parameters of the scrypt key derivation.
#[derive(Clone, Copy, Debug, PartialEq, Eq, Structural)]
pub struct KdfParams {
    /// Binary logarithm of the CPU and memory cost.
    pub log_n: u8,
    /// Block size.
    pub r: u32,
    /// Parallelism.
    pub p: u32,
}

impl KdfParams {
    /// The parameters that the library works with: with them one
    /// derivation takes 128 MiB of memory at most.
    pub open spec fn valid(self) -> bool {
        &&& 1 <= self.log_n <= 17
        &&& 1 <= self.r <= 8
        &&& 1 <= self.p <= 16
        &&& self.log_n < 16 * self.r
    }

    /// Whether the parameters are valid.
    pub fn is_valid(&self) -> (r: bool)
        ensures
            r == self.valid(),
    {
        1 <= self.log_n && self.log_n <= 17 && 1 <= self.r && self.r <= 8 && 1 <= self.p
            && self.p <= 16 && (self.log_n as u32) < 16 * self.r
    }

    /// Parameters for interactive use: 32 MiB of memory.
    pub fn standard() -> (r: KdfParams)
        ensures
            r.valid(),
            r == (KdfParams { log_n: 15, r: 8, p: 1 }),
    {
        KdfParams { log_n: 15, r: 8, p: 1 }
    }
}

/// What scrypt derives from a password and a salt at the given cost: a key
/// of 32 bytes.
pub uninterp spec fn derived(password: Seq<u8>, salt: Seq<u8>, log_n: u8, r: u32, p: u32) -> Seq<
    u8,
>;

/// Calls `scrypt::Params::new` with a key length of 32 and then
/// `scrypt::scrypt`. Valid parameters pass the checks of both, so a key
/// comes back; the contract names it.
#[verifier::external_body]
fn scrypt_derive(password: &[u8], salt: &[u8], params: &KdfParams) -> (r: Option<[u8; 32]>)
    requires
        params.valid(),
    ensures
        r is Some,
        r matches Some(k) ==> k@ == derived(password@, salt@, params.log_n, params.r, params.p),
{
    let mut out = [0u8; 32];
    match scrypt::Params::new(params.log_n, params.r, params.p, 32) {
        Ok(p) => match scrypt::scrypt(password, salt, &p, &mut out) {
            Ok(()) => Some(out),
            Err(_) => None,
        },
        Err(_) => None,
    }
}

/// The key that a password gives with a salt at the given cost.
pub fn derive_key(password: &[u8], salt: &[u8], params: &KdfParams) -> (k: [u8; 32])
    requires
        params.valid(),
    ensures
        k@ == derived(password@, salt@, params.log_n, params.r, params.p),
{
    match scrypt_derive(password, salt, params) {
        Some(k) => k,
        None => [0u8; 32],
    }
}

/// A fresh nonce from the system's random source.
pub fn fresh_nonce() -> (r: Result<[u8; 24], Error>)
    ensures
        r matches Err(e) ==> e == (Error { kind: ErrorKind::Entropy, context: None }),
{
    match system_random::<24>() {
        Some(n) => Ok(n),
        None => Err(Error::bare(ErrorKind::Entropy)),
    }
}

/// Fresh key material or salt from the system's random source.
pub fn fresh_secret() -> (r: Result<[u8; 32], Error>)
    ensures
        r matches Err(e) ==> e == (Error { kind: ErrorKind::Entropy, context: None }),
{
    match system_random::<32>() {
        Some(n) => Ok(n),
        None => Err(Error::bare(ErrorKind::Entropy)),
    }
}

/// The message inside the encrypted object `data`, or `None` where `data`
/// is too short or fails authentication under `key`.
pub open spec fn unsealed(key: Seq<u8>, data: Seq<u8>) -> Option<Seq<u8>> {
    if data.len() < OVERHEAD {
        None
    } else {
        opened(key, data.subrange(0, NONCE_LEN as int), data.subrange(NONCE_LEN as int, data.len() as int))
    }
}

/// Copies `data[from..to]`.
pub fn copy_range(data: &[u8], from: usize, to: usize) -> (out: Vec<u8>)
    requires
        from <= to <= data@.len(),
    ensures
        out@ == data@.subrange(from as int, to as int),
{
    let mut out: Vec<u8> = Vec::new();
    let mut j: usize = from;
    while j < to
        invariant
            from <= j <= to <= data@.len(),
            out@ == data@.subrange(from as int, j as int),
        decreases to - j,
    {
        out.push(data[j]);
        assert(data@.subrange(from as int, j + 1) =~= data@.subrange(from as int, j as int).push(
            data@[j as int],
        ));
        j += 1;
    }
    out
}

/// Appends `data` to `out`.
pub fn append(out: &mut Vec<u8>, data: &[u8])
    ensures
        final(out)@ == old(out)@ + data@,
{
    let mut j: usize = 0;
    while j < data.len()
        invariant
            j <= data@.len(),
            out@ == old(out)@ + data@.subrange(0, j as int),
        decreases data@.len() - j,
    {
        out.push(data[j]);
        assert(data@.subrange(0, j + 1) =~= data@.subrange(0, j as int).push(data@[j as int]));
        j += 1;
    }
    assert(data@.subrange(0, data@.len() as int) =~= data@);
}

/// Encrypts `message` under `key` with the given nonce: the nonce, then the
/// sealed message. Messages of up to `MAX_MESSAGE` bytes are accepted;
/// what comes out opens to the message again.
pub fn seal(key: &[u8; 32], nonce: &[u8; 24], message: &[u8]) -> (r: Option<Vec<u8>>)
    ensures
        message@.len() <= MAX_MESSAGE ==> r is Some,
        r matches Some(c) ==> {
            &&& c@ == nonce@ + sealed(key@, nonce@, message@)
            &&& c@.len() == message@.len() + OVERHEAD
            &&& unsealed(key@, c@) == Some(message@)
        },
{
    match aead_seal(key, nonce, message) {
        None => None,
        Some(body) => {
            let mut out: Vec<u8> = Vec::new();
            append(&mut out, nonce.as_slice());
            append(&mut out, body.as_slice());
            proof {
                assert(out@ =~= nonce@ + body@);
                assert(out@.subrange(0, NONCE_LEN as int) =~= nonce@);
                assert(out@.subrange(NONCE_LEN as int, out@.len() as int) =~= body@);
            }
            Some(out)
        },
    }
}

/// Decrypts an object made by `seal`.
pub fn open(key: &[u8; 32], data: &[u8]) -> (r: Option<Vec<u8>>)
    ensures
        match r {
            Some(m) => unsealed(key@, data@) == Some(m@) && m@.len() + OVERHEAD == data@.len(),
            None => unsealed(key@, data@) is None,
        },
{
    if data.len() < OVERHEAD {
        return None;
    }
    let mut nonce = [0u8; 24];
    let mut i: usize = 0;
    while i < 24
        invariant
            i <= 24,
            data@.len() >= OVERHEAD,
            forall|j: int| 0 <= j < i ==> nonce@[j] == data@[j],
        decreases 24 - i,
    {
        nonce[i] = data[i];
        i += 1;
    }
    assert(nonce@ =~= data@.subrange(0, NONCE_LEN as int));
    aead_open(key, &nonce, slice_subrange(data, NONCE_LEN, data.len()))
}

/// Encrypts `message` under `key` with a fresh nonce. Fails with `Entropy`
/// where the random source fails and with `Invalid` where the message is
/// longer than `MAX_MESSAGE`.
pub fn encrypt(key: &[u8; 32], message: &[u8]) -> (r: Result<Vec<u8>, Error>)
    ensures
        match r {
            Ok(c) => unsealed(key@, c@) == Some(message@) && c@.len() == message@.len()
                + OVERHEAD && message@.len() <= MAX_MESSAGE,
            Err(e) => e.context is None && (if message@.len() > MAX_MESSAGE {
                e.kind == ErrorKind::Invalid
            } else {
                e.kind == ErrorKind::Entropy
            }),
        },
{
    if message.len() > MAX_MESSAGE {
        return Err(Error::bare(ErrorKind::Invalid));
    }
    let nonce = fresh_nonce()?;
    match seal(key, &nonce, message) {
        Some(c) => Ok(c),
        None => Err(Error::bare(ErrorKind::Invalid)),
    }
}

/// Decrypts an encrypted object: the message where `data` is authentic
/// under `key`, `Corrupt` where it is not.
pub fn decrypt(key: &[u8; 32], data: &[u8]) -> (r: Result<Vec<u8>, Error>)
    ensures
        match r {
            Ok(m) => unsealed(key@, data@) == Some(m@),
            Err(e) => unsealed(key@, data@) is None && e == (Error {
                kind: ErrorKind::Corrupt,
                context: None,
            }),
        },
{
    match open(key, data) {
        Some(m) => Ok(m),
        None => Err(Error::bare(ErrorKind::Corrupt)),
    }
}

} // verus!
