//! Encrypted configuration storage: each configuration is sealed with
//! XChaCha20-Poly1305 under a key derived (HKDF-SHA256) from a master key
//! and the configuration's module path, and stored as an
//! [`EncryptedBlob`] per `TypeId`.

use std::any::TypeId;
use confers::CryptoError;
use vstd::prelude::*;

use crate::config::ModuleConfig;
use crate::error::{ErrorSource, TraitKitError};
use crate::slots::TypeSlots;
use crate::typeid::type_key;

verus! {

/// `confers::CryptoError` is carried through verified code as an opaque
/// value.
#[verifier::external_type_specification]
#[verifier::external_body]
pub struct ExCryptoError(CryptoError);

/// The key `confers::derive_field_key` derives from a master key, a field
/// path and a key version.
pub uninterp spec fn hkdf_field_key(
    master_key: Seq<u8>,
    field_path: Seq<char>,
    key_version: Seq<char>,
) -> Seq<u8>;

/// What `XChaCha20Crypto::decrypt` recovers from a nonce and a ciphertext
/// under a key: the plaintext, or `None` when decryption fails.
pub uninterp spec fn aead_open(nonce: Seq<u8>, ciphertext: Seq<u8>, key: Seq<u8>) -> Option<Seq<u8>>;

/// `confers::derive_field_key`: HKDF-SHA256 over `master_key`, with info
/// `"{key_version}:{field_path}"`, expanded to 32 bytes.
///
/// Trusted: the result is a function of the three arguments, and is always
/// `Ok` (the only failure of the expansion is an output longer than
/// 255 × 32 bytes, and the output here is 32 bytes).
#[verifier::external_body]
fn hkdf_derive(master_key: &[u8], field_path: &str, key_version: &str) -> (r: Result<[u8; 32], CryptoError>)
    ensures
        match r {
            Ok(k) => k@ == hkdf_field_key(master_key@, field_path@, key_version@),
            Err(_) => false,
        },
{
    confers::derive_field_key(master_key, field_path, key_version)
}

/// Whether XChaCha20-Poly1305 accepts a plaintext of `len` bytes: fewer
/// than `u32::MAX` whole 64-byte ChaCha20 blocks, so that the block counter
/// cannot overflow.
pub open spec fn sealable_len(len: nat) -> bool {
    len / 64 < 0xFFFF_FFFF
}

/// `XChaCha20Crypto::encrypt`: a fresh random 24-byte nonce and the
/// XChaCha20-Poly1305 ciphertext of `plaintext` under `key`.
///
/// Trusted: the nonce is random, so no result is named; what is stated is
/// that the call succeeds exactly for a 32-byte key and a plaintext of
/// fewer than `u32::MAX` ChaCha20 blocks (the only two checks on the way),
/// that the nonce has 24 bytes, and that decrypting the result under the
/// same key gives `plaintext` back (correctness of the AEAD).
#[verifier::external_body]
fn aead_seal(plaintext: &[u8], key: &[u8]) -> (r: Result<(Vec<u8>, Vec<u8>), CryptoError>)
    ensures
        r is Ok <==> (key@.len() == 32 && sealable_len(plaintext@.len())),
        match r {
            Ok((nonce, ct)) => nonce@.len() == 24 && aead_open(nonce@, ct@, key@) == Some(plaintext@),
            Err(_) => true,
        },
{
    confers::XChaCha20Crypto::new().encrypt(plaintext, key)
}

/// `XChaCha20Crypto::decrypt`: the plaintext of `ciphertext` under `key`
/// and `nonce`.
///
/// Trusted: the result is a function of the three arguments; a key of
/// another length than 32 bytes or a nonce of another length than 24 bytes
/// is refused.
#[verifier::external_body]
fn aead_unseal(nonce: &[u8], ciphertext: &[u8], key: &[u8]) -> (r: Result<Vec<u8>, CryptoError>)
    ensures
        match r {
            Ok(p) => aead_open(nonce@, ciphertext@, key@) == Some(p@),
            Err(_) => aead_open(nonce@, ciphertext@, key@) is None,
        },
        (key@.len() != 32 || nonce@.len() != 24) ==> r is Err,
{
    confers::XChaCha20Crypto::new().decrypt(nonce, ciphertext, key)
}

/// Version tag mixed into every derived field key.
pub const KEY_DERIVATION_VERSION: &'static str = "v1";

/// The field key of a configuration path under a master key.
pub open spec fn kit_field_key(master_key: Seq<u8>, path: Seq<char>) -> Seq<u8> {
    hkdf_field_key(master_key, path, KEY_DERIVATION_VERSION@)
}

/// Map a key derivation outcome to the crate's error type: a failure
/// becomes `BuildFailed` with the given context.
pub fn field_key_result(raw: Result<[u8; 32], CryptoError>, context: &'static str) -> (r: Result<
    [u8; 32],
    TraitKitError,
>)
    ensures
        match raw {
            Ok(k) => r == Ok::<[u8; 32], TraitKitError>(k),
            Err(_) => r matches Err(TraitKitError::BuildFailed { context: c, .. }) && c@ == context@,
        },
{
    match raw {
        Ok(k) => Ok(k),
        Err(e) => Err(TraitKitError::BuildFailed { context: context.to_owned(), source: ErrorSource::new(e) }),
    }
}

/// Derive the per-field encryption key of `path` from `master_key`.
pub fn derive_kit_field_key(master_key: &[u8], path: &'static str, context: &'static str) -> (r:
    Result<[u8; 32], TraitKitError>)
    ensures
        r matches Ok(k) && k@ == kit_field_key(master_key@, path@),
{
    field_key_result(hkdf_derive(master_key, path, KEY_DERIVATION_VERSION), context)
}

/// Overwrite key material with zeros.
pub fn wipe_key(key: &mut [u8; 32])
    ensures
        final(key)@ == Seq::new(32, |i: int| 0u8),
{
    let mut i: usize = 0;
    while i < 32
        invariant
            i <= 32,
            key@.len() == 32,
            forall|j: int| 0 <= j < i ==> key@[j] == 0u8,
        decreases 32 - i,
    {
        key.set(i, 0u8);
        i += 1;
    }
    proof {
        assert(key@ =~= Seq::new(32, |i: int| 0u8));
    }
}

/// Overwrite a buffer (such as a serialized plaintext) with zeros, keeping
/// its length.
pub fn wipe_bytes(buf: &mut Vec<u8>)
    ensures
        final(buf)@ == Seq::new(old(buf)@.len(), |i: int| 0u8),
{
    let n = buf.len();
    let mut i: usize = 0;
    while i < n
        invariant
            i <= n,
            buf@.len() == n,
            n == old(buf)@.len(),
            forall|j: int| 0 <= j < i ==> buf@[j] == 0u8,
        decreases n - i,
    {
        buf.set(i, 0u8);
        i += 1;
    }
    proof {
        assert(buf@ =~= Seq::new(old(buf)@.len(), |i: int| 0u8));
    }
}

/// Encrypted configuration blob: nonce and ciphertext (with its
/// authentication tag).
pub struct EncryptedBlob {
    nonce: Vec<u8>,
    ciphertext: Vec<u8>,
}

impl EncryptedBlob {
    /// The nonce, by content.
    pub closed spec fn nonce_bytes(self) -> Seq<u8> {
        self.nonce@
    }

    /// The ciphertext, by content.
    pub closed spec fn ciphertext_bytes(self) -> Seq<u8> {
        self.ciphertext@
    }

    /// A blob from a raw nonce and ciphertext.
    pub fn new(nonce: Vec<u8>, ciphertext: Vec<u8>) -> (r: Self)
        ensures
            r.nonce_bytes() == nonce@,
            r.ciphertext_bytes() == ciphertext@,
    {
        EncryptedBlob { nonce, ciphertext }
    }

    /// The XChaCha20-Poly1305 nonce.
    pub fn nonce(&self) -> (r: &[u8])
        ensures
            r@ == self.nonce_bytes(),
    {
        self.nonce.as_slice()
    }

    /// The ciphertext with its Poly1305 authentication tag.
    pub fn ciphertext(&self) -> (r: &[u8])
        ensures
            r@ == self.ciphertext_bytes(),
    {
        self.ciphertext.as_slice()
    }

    /// What the blob decrypts to under the field key of `path`.
    pub open spec fn opened(self, master_key: Seq<u8>, path: Seq<char>) -> Option<Seq<u8>> {
        aead_open(self.nonce_bytes(), self.ciphertext_bytes(), kit_field_key(master_key, path))
    }
}

/// Seal `plaintext` for `path`: check the master key (at least 16 bytes),
/// derive the field key, encrypt, and wipe the key.
pub fn seal(plaintext: &[u8], master_key: &[u8], path: &'static str, context: &'static str) -> (r:
    Result<EncryptedBlob, TraitKitError>)
    ensures
        master_key@.len() < 16 ==> (r matches Err(TraitKitError::BuildFailed { context: c, .. })
            && c@ == context@),
        r matches Ok(b) ==> b.opened(master_key@, path@) == Some(plaintext@),
        r matches Err(e) ==> (e matches TraitKitError::BuildFailed { context: c, .. } && c@
            == context@),
        r is Ok <==> (master_key@.len() >= 16 && sealable_len(plaintext@.len())),
{
    if master_key.len() < 16 {
        return Err(TraitKitError::BuildFailed {
            context: context.to_owned(),
            source: short_master_key(master_key.len()),
        });
    }
    let mut field_key = match derive_kit_field_key(master_key, path, context) {
        Ok(k) => k,
        Err(e) => {
            return Err(e);
        },
    };
    let ghost key_bytes = field_key@;
    let sealed = aead_seal(plaintext, field_key.as_slice());
    wipe_key(&mut field_key);
    match sealed {
        Ok((nonce, ciphertext)) => {
            let blob = EncryptedBlob::new(nonce, ciphertext);
            Ok(blob)
        },
        Err(e) => Err(TraitKitError::BuildFailed { context: context.to_owned(), source: ErrorSource::new(e) }),
    }
}

/// Open a blob sealed for `path`: check the master key (at least 16
/// bytes), derive the field key, decrypt, and wipe the key.
pub fn open(blob: &EncryptedBlob, master_key: &[u8], path: &'static str, context: &'static str) -> (r:
    Result<Vec<u8>, TraitKitError>)
    ensures
        master_key@.len() < 16 ==> (r matches Err(TraitKitError::BuildFailed { context: c, .. })
            && c@ == context@),
        master_key@.len() >= 16 ==> match blob.opened(master_key@, path@) {
            Some(p) => (r matches Ok(q) && q@ == p),
            None => (r matches Err(TraitKitError::BuildFailed { context: c, .. }) && c@ == context@),
        },
{
    if master_key.len() < 16 {
        return Err(TraitKitError::BuildFailed {
            context: context.to_owned(),
            source: short_master_key(master_key.len()),
        });
    }
    let mut field_key = match derive_kit_field_key(master_key, path, context) {
        Ok(k) => k,
        Err(e) => {
            return Err(e);
        },
    };
    let opened = aead_unseal(blob.nonce(), blob.ciphertext(), field_key.as_slice());
    wipe_key(&mut field_key);
    match opened {
        Ok(p) => Ok(p),
        Err(e) => Err(TraitKitError::BuildFailed { context: context.to_owned(), source: ErrorSource::new(e) }),
    }
}

/// `std::io::Error` is carried through verified code as an opaque value.
#[verifier::external_type_specification]
#[verifier::external_body]
pub struct ExIoError(std::io::Error);

/// `std::io::Error::new` with kind `InvalidInput` and a message naming the
/// length of a master key that is too short.
///
/// Trusted, with no postcondition: the error is only carried as a cause.
#[verifier::external_body]
fn short_key_error(len: usize) -> std::io::Error {
    std::io::Error::new(
        std::io::ErrorKind::InvalidInput,
        format!("master_key must be at least 16 bytes, got {len}"),
    )
}

/// The cause reported for a master key shorter than 16 bytes.
fn short_master_key(len: usize) -> ErrorSource {
    ErrorSource::new(short_key_error(len))
}

/// What reading `type_id` back from `blobs` yields under `path` and
/// `master_key`: the decrypted bytes, or `None` when the key is too short,
/// nothing is stored there, or decryption fails.
pub open spec fn read_back(
    blobs: Map<TypeId, EncryptedBlob>,
    type_id: TypeId,
    path: Seq<char>,
    master_key: Seq<u8>,
) -> Option<Seq<u8>> {
    if master_key.len() < 16 || !blobs.dom().contains(type_id) {
        None
    } else {
        blobs[type_id].opened(master_key, path)
    }
}

/// Encrypted configurations, one blob per `TypeId`.
pub struct EncryptedConfigs {
    blobs: TypeSlots<EncryptedBlob>,
}

impl View for EncryptedConfigs {
    type V = Map<TypeId, EncryptedBlob>;

    closed spec fn view(&self) -> Map<TypeId, EncryptedBlob> {
        self.blobs@
    }
}

impl EncryptedConfigs {
    /// Internal consistency (keys are unique).
    pub closed spec fn wf(self) -> bool {
        self.blobs.wf()
    }

    /// No encrypted configurations.
    pub fn new() -> (r: Self)
        ensures
            r.wf(),
            r@ == Map::<TypeId, EncryptedBlob>::empty(),
    {
        EncryptedConfigs { blobs: TypeSlots::new() }
    }

    /// Seal `plaintext` for `path` and store it under `type_id`, replacing
    /// any earlier blob. On failure nothing is stored.
    pub fn set_encrypted_by_type_id(
        &mut self,
        type_id: TypeId,
        path: &'static str,
        plaintext: &[u8],
        master_key: &[u8],
    ) -> (r: Result<(), TraitKitError>)
        requires
            old(self).wf(),
        ensures
            final(self).wf(),
            r is Err ==> final(self)@ == old(self)@,
            r is Ok <==> (master_key@.len() >= 16 && sealable_len(plaintext@.len())),
            r matches Err(e) ==> (e matches TraitKitError::BuildFailed { context: c, .. } && c@
                == "set_encrypted"@),
            r is Ok ==> final(self)@.dom() == old(self)@.dom().insert(type_id)
                && final(self)@.remove(type_id) == old(self)@.remove(type_id)
                && final(self)@[type_id].opened(master_key@, path@) == Some(plaintext@),
    {
        match seal(plaintext, master_key, path, "set_encrypted") {
            Ok(blob) => {
                self.blobs.insert(type_id, blob);
                proof {
                    assert(self@.dom() =~= old(self)@.dom().insert(type_id));
                    assert(self@.remove(type_id) =~= old(self)@.remove(type_id));
                }
                Ok(())
            },
            Err(e) => Err(e),
        }
    }

    /// Whether a blob is stored under `type_id`.
    pub fn contains_encrypted_by_type_id(&self, type_id: TypeId) -> (r: bool)
        requires
            self.wf(),
        ensures
            r == self@.dom().contains(type_id),
    {
        self.blobs.contains(&type_id)
    }

    /// Open the blob stored under `type_id`, sealed for `path`.
    ///
    /// `MissingConfig` (naming `name`) when no blob is stored there;
    /// `BuildFailed` for a short master key or a failed decryption.
    pub fn get_encrypted_by_type_id(
        &self,
        type_id: TypeId,
        path: &'static str,
        name: &str,
        master_key: &[u8],
    ) -> (r: Result<Vec<u8>, TraitKitError>)
        requires
            self.wf(),
        ensures
            master_key@.len() < 16 ==> r matches Err(TraitKitError::BuildFailed { .. }),
            master_key@.len() >= 16 && !self@.dom().contains(type_id) ==> (r matches Err(
                TraitKitError::MissingConfig { key },
            ) && key@ == name@),
            master_key@.len() >= 16 && self@.dom().contains(type_id) && read_back(self@, type_id, path@, master_key@)
                is None ==> r matches Err(TraitKitError::BuildFailed { .. }),
            match read_back(self@, type_id, path@, master_key@) {
                Some(p) => (r matches Ok(q) && q@ == p),
                None => r is Err,
            },
    {
        if master_key.len() < 16 {
            return Err(TraitKitError::BuildFailed {
                context: "get_encrypted".to_owned(),
                source: short_master_key(master_key.len()),
            });
        }
        match self.blobs.get(&type_id) {
            Some(blob) => open(blob, master_key, path, "get_encrypted"),
            None => Err(TraitKitError::MissingConfig { key: name.to_owned() }),
        }
    }

    /// Seal the serialized configuration of `C` under its module path and
    /// store it under the type key of `C`.
    pub fn set_encrypted<C: ModuleConfig>(&mut self, plaintext: &[u8], master_key: &[u8]) -> (r:
        Result<(), TraitKitError>)
        requires
            old(self).wf(),
        ensures
            final(self).wf(),
            r is Err ==> final(self)@ == old(self)@,
            r is Ok <==> (master_key@.len() >= 16 && sealable_len(plaintext@.len())),
            r matches Err(e) ==> (e matches TraitKitError::BuildFailed { context: c, .. } && c@
                == "set_encrypted"@),
            r is Ok ==> exists|k: TypeId|
                final(self)@.dom() == old(self)@.dom().insert(k) && final(self)@.remove(k) == old(
                    self,
                )@.remove(k) && #[trigger] final(self)@[k].opened(master_key@, C::PATH@) == Some(
                    plaintext@,
                ),
    {
        let key = type_key::<C>();
        self.set_encrypted_by_type_id(key, C::PATH, plaintext, master_key)
    }

    /// Whether an encrypted configuration of `C` is stored.
    pub fn contains_encrypted<C: ModuleConfig>(&self) -> (r: bool)
        requires
            self.wf(),
        ensures
            exists|k: TypeId| r == self@.dom().contains(k),
    {
        let key = type_key::<C>();
        self.contains_encrypted_by_type_id(key)
    }
}

/// What a write stores is what a read gives back: after a successful
/// `set_encrypted_by_type_id`, reading the same `TypeId` under the same
/// path and master key yields the plaintext that was written, and every
/// other `TypeId` reads back as before.
pub proof fn lemma_encrypted_round_trip(
    before: Map<TypeId, EncryptedBlob>,
    after: Map<TypeId, EncryptedBlob>,
    type_id: TypeId,
    path: Seq<char>,
    plaintext: Seq<u8>,
    master_key: Seq<u8>,
    other: TypeId,
)
    requires
        after.dom() == before.dom().insert(type_id),
        after.remove(type_id) == before.remove(type_id),
        after[type_id].opened(master_key, path) == Some(plaintext),
        master_key.len() >= 16,
        other != type_id,
    ensures
        read_back(after, type_id, path, master_key) == Some(plaintext),
        read_back(after, other, path, master_key) == read_back(before, other, path, master_key),
{
    assert(after.dom().contains(type_id));
    if before.dom().contains(other) {
        assert(after.remove(type_id)[other] == after[other]);
        assert(before.remove(type_id)[other] == before[other]);
    }
    if after.dom().contains(other) {
        assert(before.dom().contains(other));
    }
}

} // verus!
