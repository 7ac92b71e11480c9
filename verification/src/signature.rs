//! Key material, signatures, and the store of the signatures that peers
//! have put under their data.

use vstd::prelude::*;
use crate::byte_map::ByteMap;
use crate::bytes::bytes_eq;
use crate::bytes::copy_bytes;

verus! {

/// The kind of key that a peer signs with.
#[derive(Clone, Copy, Debug, PartialEq, Eq, Structural)]
pub enum KeyFormat {
    Ed25519,
    Rsa,
    Secp256k1,
}

/// Why key material or a signature was refused.
#[derive(Clone, Copy, Debug, PartialEq, Eq, Structural)]
pub enum KeyError {
    /// The byte names no key format.
    InvalidKeyFormat { byte: u8 },
    /// The bytes are no secret key of the format.
    InvalidSecretKey,
    /// The key could not sign the message.
    SigningFailed,
}

impl KeyFormat {
    /// The format that a byte selects.
    pub open spec fn of_byte(byte: u8) -> Option<KeyFormat> {
        if byte == 0 {
            Some(KeyFormat::Ed25519)
        } else if byte == 1 {
            Some(KeyFormat::Rsa)
        } else if byte == 2 {
            Some(KeyFormat::Secp256k1)
        } else {
            None
        }
    }

    /// The byte that selects a format.
    pub open spec fn byte(self) -> u8 {
        match self {
            KeyFormat::Ed25519 => 0,
            KeyFormat::Rsa => 1,
            KeyFormat::Secp256k1 => 2,
        }
    }

    /// The byte that selects this format.
    pub fn to_byte(&self) -> (byte: u8)
        ensures
            byte == self.byte(),
            KeyFormat::of_byte(byte) == Some(*self),
    {
        match self {
            KeyFormat::Ed25519 => 0,
            KeyFormat::Rsa => 1,
            KeyFormat::Secp256k1 => 2,
        }
    }

    /// The format that `byte` selects.
    pub fn try_from_byte(byte: u8) -> (format: Result<KeyFormat, KeyError>)
        ensures
            match format {
                Ok(found) => KeyFormat::of_byte(byte) == Some(found),
                Err(e) => KeyFormat::of_byte(byte) is None && e == (KeyError::InvalidKeyFormat {
                    byte,
                }),
            },
    {
        match key_format_from_byte(byte) {
            Some(found) => Ok(found),
            None => Err(KeyError::InvalidKeyFormat { byte }),
        }
    }
}

/// `KeyFormat::try_from` of the `fluence-keypair` crate, on a byte: 0, 1 and
/// 2 select Ed25519, RSA and Secp256k1, and no other byte selects a format.
#[verifier::external_body]
fn key_format_from_byte(byte: u8) -> (format: Option<KeyFormat>)
    ensures
        format == KeyFormat::of_byte(byte),
{
    match fluence_keypair::KeyFormat::try_from(byte) {
        Ok(fluence_keypair::KeyFormat::Ed25519) => Some(KeyFormat::Ed25519),
        Ok(fluence_keypair::KeyFormat::Rsa) => Some(KeyFormat::Rsa),
        Ok(fluence_keypair::KeyFormat::Secp256k1) => Some(KeyFormat::Secp256k1),
        Err(_) => None,
    }
}

/// The encoded public key that belongs to a secret key, where the bytes are
/// a secret key of the format.
pub uninterp spec fn public_key_of(format: u8, secret: Seq<u8>) -> Option<Seq<u8>>;

/// The signature that a secret key puts under a message, where it can.
pub uninterp spec fn signature_of(format: u8, secret: Seq<u8>, message: Seq<u8>) -> Option<Seq<u8>>;

/// Whether an encoded public key accepts a signature for a message.
pub uninterp spec fn signature_accepted(
    public_key: Seq<u8>,
    message: Seq<u8>,
    signature: Seq<u8>,
) -> bool;

/// `KeyPair::from_vec` of the `fluence-keypair` crate, followed by `public`
/// and `PublicKey::encode`: decodes the key material and hands out the
/// encoded public key. Whether the material decodes, and to which key, is a
/// function of the format and the bytes, which `public_key_of` names.
#[verifier::external_body]
fn derive_public_key(format: u8, secret: &[u8]) -> (public: Option<Vec<u8>>)
    ensures
        match public {
            Some(key) => public_key_of(format, secret@) == Some(key@),
            None => public_key_of(format, secret@) is None,
        },
{
    let format = fluence_keypair::KeyFormat::try_from(format).ok()?;
    let pair = fluence_keypair::KeyPair::from_vec(secret.to_vec(), format).ok()?;
    Some(pair.public().encode())
}

/// `KeyPair::sign` of the `fluence-keypair` crate, on the key pair that
/// `KeyPair::from_vec` decodes: the signature is a function of the format,
/// the key material and the message, which `signature_of` names. Nothing
/// is claimed of what the signature is worth.
#[verifier::external_body]
fn sign_with_secret(format: u8, secret: &[u8], message: &[u8]) -> (signature: Option<Vec<u8>>)
    ensures
        match signature {
            Some(bytes) => signature_of(format, secret@, message@) == Some(bytes@),
            None => signature_of(format, secret@, message@) is None,
        },
{
    let format = fluence_keypair::KeyFormat::try_from(format).ok()?;
    let pair = fluence_keypair::KeyPair::from_vec(secret.to_vec(), format).ok()?;
    Some(pair.sign(message).ok()?.to_vec().to_vec())
}

/// `PublicKey::verify` of the `fluence-keypair` crate, on the key that
/// `PublicKey::decode` reads and the signature that `Signature::from_bytes`
/// wraps: whether the key accepts is a function of the three byte strings,
/// which `signature_accepted` names. `PublicKey::decode` reads the first
/// byte, so the key must have one.
#[verifier::external_body]
fn check_signature(public_key: &[u8], message: &[u8], signature: &[u8]) -> (accepted: bool)
    requires
        public_key@.len() > 0,
    ensures
        accepted == signature_accepted(public_key@, message@, signature@),
{
    match fluence_keypair::PublicKey::decode(public_key) {
        Ok(key) => {
            let format = key.get_key_format();
            key.verify(message, &fluence_keypair::Signature::from_bytes(format, signature.to_vec())).is_ok()
        },
        Err(_) => false,
    }
}

/// Whether signatures are checked against the encoded public key: it is
/// not empty, and its first byte, which selects the format, does not select
/// Secp256k1.
pub open spec fn checks(public_key: Seq<u8>) -> bool {
    public_key.len() > 0 && KeyFormat::of_byte(public_key[0]) != Some(KeyFormat::Secp256k1)
}

/// Whether the peer with the encoded public key `public_key` signed
/// `message` with `signature`. An empty key accepts nothing. Nor does a
/// Secp256k1 key: the key crate at hand takes every well-formed signature
/// for good under such a key, so nothing that it says of one can be relied
/// on, and what cannot be checked is refused.
pub fn verify(public_key: &[u8], message: &[u8], signature: &[u8]) -> (accepted: bool)
    ensures
        accepted == (checks(public_key@) && signature_accepted(public_key@, message@, signature@)),
{
    if public_key.len() == 0 || public_key[0] == 2 {
        false
    } else {
        check_signature(public_key, message, signature)
    }
}

/// The message that a key pair signs when it is made, to show that its two
/// halves belong together.
pub open spec fn probe() -> Seq<u8> {
    seq![107u8, 101u8, 121u8]
}

/// The encoded public key of key material that can be used: the bytes are
/// key material of the format, the key signs the probe, and its own public
/// key takes that signature for good.
pub open spec fn usable_key(format: u8, secret: Seq<u8>) -> Option<Seq<u8>> {
    match (public_key_of(format, secret), signature_of(format, secret, probe())) {
        (Some(public), Some(signature)) => if public.len() > 0 && signature_accepted(
            public,
            probe(),
            signature,
        ) {
            Some(public)
        } else {
            None
        },
        _ => None,
    }
}

/// The signature that a key hands out for a message: the one that the
/// secret key puts under it, where there is one and the public key takes
/// it for good.
pub open spec fn signed(
    format: u8,
    secret: Seq<u8>,
    public: Seq<u8>,
    message: Seq<u8>,
) -> Option<Seq<u8>> {
    match signature_of(format, secret, message) {
        Some(signature) => if public.len() > 0 && signature_accepted(public, message, signature) {
            Some(signature)
        } else {
            None
        },
        None => None,
    }
}

/// The key pair that a peer signs its data with.
pub struct KeyPair {
    format: KeyFormat,
    secret: Vec<u8>,
    public: Vec<u8>,
}

impl KeyPair {
    /// The format of the key.
    pub closed spec fn format(&self) -> KeyFormat {
        self.format
    }

    /// The key material that the pair was made from.
    pub closed spec fn secret(&self) -> Seq<u8> {
        self.secret@
    }

    /// The encoded public key.
    pub closed spec fn public(&self) -> Seq<u8> {
        self.public@
    }

    /// The public key is the one that belongs to the secret key, and takes
    /// what the secret key signs for good.
    pub open spec fn wf(&self) -> bool {
        usable_key(self.format().byte(), self.secret()) == Some(self.public())
    }

    /// The key pair of key material. For Ed25519 the material is the 64
    /// bytes of a pair, the secret half before the public half; for
    /// Secp256k1 it is the 32 bytes of the secret key; RSA key material is
    /// never taken. The material is taken only if the key signs a probe and
    /// its public key takes that signature for good, which is what tells an
    /// Ed25519 pair whose halves do not belong together.
    pub fn from_secret_key(secret: Vec<u8>, format: KeyFormat) -> (pair: Result<KeyPair, KeyError>)
        ensures
            match pair {
                Ok(pair) => pair.wf() && pair.format() == format && pair.secret() == secret@,
                Err(e) => e == KeyError::InvalidSecretKey && usable_key(format.byte(), secret@)
                    is None,
            },
    {
        let public = match derive_public_key(format.to_byte(), secret.as_slice()) {
            Some(public) => public,
            None => {
                return Err(KeyError::InvalidSecretKey);
            },
        };
        let mut message: Vec<u8> = Vec::new();
        message.push(107);
        message.push(101);
        message.push(121);
        assert(message@ =~= probe());
        let signature = match sign_with_secret(format.to_byte(), secret.as_slice(), message.as_slice()) {
            Some(signature) => signature,
            None => {
                return Err(KeyError::InvalidSecretKey);
            },
        };
        if public.len() == 0 || !check_signature(
            public.as_slice(),
            message.as_slice(),
            signature.as_slice(),
        ) {
            return Err(KeyError::InvalidSecretKey);
        }
        Ok(KeyPair { format, secret, public })
    }

    /// The encoded public key, which names the peer.
    pub fn public_key(&self) -> (key: Vec<u8>)
        ensures
            key@ == self.public(),
    {
        copy_bytes(self.public.as_slice())
    }

    /// The format of the key.
    pub fn key_format(&self) -> (format: KeyFormat)
        ensures
            format == self.format(),
    {
        self.format
    }

    /// The signature that the pair hands out for `message`, see `signed`.
    pub open spec fn signs(&self, message: Seq<u8>) -> Option<Seq<u8>> {
        signed(self.format().byte(), self.secret(), self.public(), message)
    }

    /// Signs `message`, and hands the signature out only after the pair's
    /// own public key has taken it for good: what the pair signs, it can be
    /// held to.
    pub fn sign(&self, message: &[u8]) -> (signature: Result<Vec<u8>, KeyError>)
        ensures
            match signature {
                Ok(bytes) => self.signs(message@) == Some(bytes@),
                Err(e) => e == KeyError::SigningFailed && self.signs(message@) is None,
            },
    {
        match sign_with_secret(self.format.to_byte(), self.secret.as_slice(), message) {
            Some(bytes) => {
                if self.public.len() > 0 && check_signature(
                    self.public.as_slice(),
                    message,
                    bytes.as_slice(),
                ) {
                    Ok(bytes)
                } else {
                    Err(KeyError::SigningFailed)
                }
            },
            None => Err(KeyError::SigningFailed),
        }
    }
}

/// What `SignatureStore::put` found in the store.
#[derive(Clone, Copy, Debug, PartialEq, Eq, Structural)]
pub enum Stored {
    /// The peer had no signature in the store.
    Added,
    /// The peer had this very signature in the store.
    Unchanged,
    /// The peer had another signature in the store, which gave way.
    Replaced,
}

/// The entry at place `j` gives its peer another signature than `ours`
/// holds for it.
pub open spec fn differs(
    ours: Map<Seq<u8>, Seq<u8>>,
    theirs: Seq<crate::byte_map::ByteEntry>,
    j: int,
) -> bool {
    ours.dom().contains(theirs[j].key()) && ours[theirs[j].key()] != theirs[j].value()
}

/// What `put` reports for a peer and a signature.
pub open spec fn stored_as(
    before: Map<Seq<u8>, Seq<u8>>,
    peer: Seq<u8>,
    signature: Seq<u8>,
) -> Stored {
    if !before.dom().contains(peer) {
        Stored::Added
    } else if before[peer] == signature {
        Stored::Unchanged
    } else {
        Stored::Replaced
    }
}

/// The signatures of the peers that took part, each under the peer's
/// encoded public key.
#[derive(Debug)]
pub struct SignatureStore {
    map: ByteMap,
}

impl View for SignatureStore {
    type V = Map<Seq<u8>, Seq<u8>>;

    closed spec fn view(&self) -> Map<Seq<u8>, Seq<u8>> {
        self.map@
    }
}

impl SignatureStore {
    /// No peer is held twice.
    pub closed spec fn wf(&self) -> bool {
        self.map.wf()
    }

    /// The number of peers held.
    pub closed spec fn size(&self) -> nat {
        self.map.entries().len()
    }

    /// A store without signatures.
    pub fn new() -> (store: SignatureStore)
        ensures
            store.wf(),
            store@ == Map::<Seq<u8>, Seq<u8>>::empty(),
            store.size() == 0,
    {
        SignatureStore { map: ByteMap::new() }
    }

    /// The number of peers held.
    pub fn len(&self) -> (n: usize)
        ensures
            n == self.size(),
    {
        self.map.len()
    }

    /// A copy that holds the same signatures.
    pub fn duplicate(&self) -> (copy: SignatureStore)
        requires
            self.wf(),
        ensures
            copy.wf(),
            copy@ == self@,
    {
        SignatureStore { map: self.map.duplicate() }
    }

    /// The signature that `peer` has in the store.
    pub fn get(&self, peer: &[u8]) -> (found: Option<Vec<u8>>)
        requires
            self.wf(),
        ensures
            match found {
                Some(signature) => self@.dom().contains(peer@) && signature@ == self@[peer@],
                None => !self@.dom().contains(peer@),
            },
    {
        match self.map.find(peer) {
            Some(i) => Some(copy_bytes(self.map.value_at(i).as_slice())),
            None => None,
        }
    }

    /// Puts the signature of `peer` into the store and reports whether an
    /// earlier signature of that peer gave way to it.
    pub fn put(&mut self, peer: &[u8], signature: &[u8]) -> (stored: Stored)
        requires
            old(self).wf(),
        ensures
            final(self).wf(),
            final(self)@ == old(self)@.insert(peer@, signature@),
            stored == stored_as(old(self)@, peer@, signature@),
            stored is Added ==> final(self).size() == old(self).size() + 1,
            !(stored is Added) ==> final(self).size() == old(self).size(),
    {
        let stored = match self.map.find(peer) {
            Some(i) => {
                if bytes_eq(self.map.value_at(i).as_slice(), signature) {
                    Stored::Unchanged
                } else {
                    Stored::Replaced
                }
            },
            None => Stored::Added,
        };
        self.map.put(peer, signature);
        stored
    }

    /// Takes over every signature of `other`. Where a peer has one signature
    /// here and another one there, the one of `other` takes its place, and
    /// the conflict is reported.
    pub fn merge(&mut self, other: &SignatureStore) -> (conflict: bool)
        requires
            old(self).wf(),
            other.wf(),
        ensures
            final(self).wf(),
            final(self)@ == old(self)@.union_prefer_right(other@),
            conflict == !crate::cid::tables_agree(old(self)@, other@),
    {
        let mut conflict = false;
        let mut i: usize = 0;
        let count = other.map.len();
        let ghost theirs = other.map.entries();
        assert(theirs.take(0) =~= Seq::<crate::byte_map::ByteEntry>::empty());
        assert(self@ =~= old(self)@.union_prefer_right(crate::byte_map::entries_map(theirs.take(0))));
        while i < count
            invariant
                i <= count,
                count == theirs.len(),
                theirs == other.map.entries(),
                other.wf(),
                self.wf(),
                self@ == old(self)@.union_prefer_right(
                    crate::byte_map::entries_map(theirs.take(i as int)),
                ),
                conflict == exists|j: int| 0 <= j < i && #[trigger] differs(old(self)@, theirs, j),
            decreases count - i,
        {
            let ghost seen = theirs.take(i as int);
            let ghost entry = theirs[i as int];
            proof {
                assert(theirs.take(i + 1).drop_last() =~= seen);
                assert forall|j: int| 0 <= j < seen.len() implies (#[trigger] seen[j]).key()
                    != entry.key() by {
                    assert(seen[j] == theirs[j]);
                }
                crate::byte_map::lemma_entries_map_absent(seen, entry.key());
            }
            let stored = self.put(other.map.key_at(i).as_slice(), other.map.value_at(i).as_slice());
            if matches!(stored, Stored::Replaced) {
                conflict = true;
            }
            proof {
                assert(differs(old(self)@, theirs, i as int) == (stored is Replaced));
                assert(self@ =~= old(self)@.union_prefer_right(
                    crate::byte_map::entries_map(theirs.take(i + 1)),
                ));
            }
            i += 1;
        }
        proof {
            assert(theirs.take(i as int) =~= theirs);
            if conflict {
                let j = choose|j: int| 0 <= j < i && #[trigger] differs(old(self)@, theirs, j);
                crate::byte_map::lemma_entries_map_present(theirs, j);
            } else {
                assert forall|peer: Seq<u8>|
                    old(self)@.dom().contains(peer) && other@.dom().contains(
                        peer,
                    ) implies old(self)@[peer] == other@[peer] by {
                    let j = crate::byte_map::lemma_entries_map_witness(theirs, peer);
                    crate::byte_map::lemma_entries_map_present(theirs, j);
                    assert(!differs(old(self)@, theirs, j));
                }
            }
        }
        conflict
    }

    /// The peer and the signature at place `i`, in the order of the peers'
    /// keys.
    pub fn entry_at(&self, i: usize) -> (entry: (Vec<u8>, Vec<u8>))
        requires
            i < self.size(),
        ensures
            entry.0@ == self.entries()[i as int].key(),
            entry.1@ == self.entries()[i as int].value(),
    {
        (copy_bytes(self.map.key_at(i).as_slice()), copy_bytes(self.map.value_at(i).as_slice()))
    }

    /// The entries in the order of the peers' keys.
    pub closed spec fn entries(&self) -> Seq<crate::byte_map::ByteEntry> {
        self.map.entries()
    }
}

} // verus!
