use air_core::call_results::CallResults;
use air_core::instruction::Instruction;
use air_core::exec_ctx::RunParameters;
use air_core::runner::execute_round_with;
use air_core::signature::verify;
use air_core::signature::KeyError;
use air_core::signature::KeyFormat;
use air_core::signature::KeyPair;
use air_core::signature::SignatureStore;
use air_core::signature::Stored;

fn ed25519_material() -> Vec<u8> {
    fluence_keypair::KeyPair::generate_ed25519().to_vec()
}

#[test]
fn key_format_bytes() {
    assert_eq!(KeyFormat::try_from_byte(0), Ok(KeyFormat::Ed25519));
    assert_eq!(KeyFormat::try_from_byte(1), Ok(KeyFormat::Rsa));
    assert_eq!(KeyFormat::try_from_byte(2), Ok(KeyFormat::Secp256k1));
    assert_eq!(KeyFormat::try_from_byte(3), Err(KeyError::InvalidKeyFormat { byte: 3 }));
    assert_eq!(KeyFormat::try_from_byte(255), Err(KeyError::InvalidKeyFormat { byte: 255 }));
    assert_eq!(KeyFormat::Ed25519.to_byte(), 0);
    assert_eq!(KeyFormat::Rsa.to_byte(), 1);
    assert_eq!(KeyFormat::Secp256k1.to_byte(), 2);
}

#[test]
fn key_pair_has_the_public_key_of_its_secret() {
    let outside = fluence_keypair::KeyPair::generate_ed25519();
    let pair = KeyPair::from_secret_key(outside.to_vec(), KeyFormat::Ed25519).unwrap();
    assert_eq!(pair.public_key(), outside.public().encode());
    assert_ne!(pair.public_key(), outside.to_vec());
    assert_eq!(pair.key_format(), KeyFormat::Ed25519);
}

#[test]
fn key_material_that_is_no_key_is_refused() {
    assert_eq!(
        KeyPair::from_secret_key(vec![1, 2, 3], KeyFormat::Ed25519).err(),
        Some(KeyError::InvalidSecretKey)
    );
    assert_eq!(
        KeyPair::from_secret_key(vec![0; 32], KeyFormat::Secp256k1).err(),
        Some(KeyError::InvalidSecretKey)
    );
    assert_eq!(
        KeyPair::from_secret_key(ed25519_material(), KeyFormat::Rsa).err(),
        Some(KeyError::InvalidSecretKey)
    );
}

#[test]
fn signature_verifies_and_a_flipped_byte_does_not() {
    let pair = KeyPair::from_secret_key(ed25519_material(), KeyFormat::Ed25519).unwrap();
    let message = b"the canonical encoding".to_vec();
    let signature = pair.sign(&message).unwrap();
    assert_ne!(signature, message);
    assert!(verify(&pair.public_key(), &message, &signature));
    for i in 0..message.len() {
        let mut tampered = message.clone();
        tampered[i] ^= 1;
        assert!(!verify(&pair.public_key(), &tampered, &signature));
    }
    let mut forged = signature.clone();
    forged[0] ^= 1;
    assert!(!verify(&pair.public_key(), &message, &forged));
    assert!(!verify(&[], &message, &signature));
    let other = KeyPair::from_secret_key(ed25519_material(), KeyFormat::Ed25519).unwrap();
    assert!(!verify(&other.public_key(), &message, &signature));
}

#[test]
fn signing_is_a_function_of_key_and_message() {
    let material = ed25519_material();
    let pair = KeyPair::from_secret_key(material.clone(), KeyFormat::Ed25519).unwrap();
    let again = KeyPair::from_secret_key(material, KeyFormat::Ed25519).unwrap();
    assert_eq!(pair.sign(b"message").unwrap(), again.sign(b"message").unwrap());
    assert_ne!(pair.sign(b"message").unwrap(), pair.sign(b"massage").unwrap());
}

#[test]
fn signature_agrees_with_the_outside_crate() {
    let outside = fluence_keypair::KeyPair::generate_ed25519();
    let pair = KeyPair::from_secret_key(outside.to_vec(), KeyFormat::Ed25519).unwrap();
    let signature = pair.sign(b"message").unwrap();
    assert_eq!(signature, outside.sign(b"message").unwrap().to_vec().to_vec());
}

#[test]
fn round_signs_the_data_it_produced() {
    let material = ed25519_material();
    let pair = KeyPair::from_secret_key(material.clone(), KeyFormat::Ed25519).unwrap();
    let parameters = RunParameters {
        init_peer_id: b"init".to_vec(),
        current_peer_id: b"peer".to_vec(),
        timestamp: 0,
        ttl: 0,
        key_format: 0,
        secret_key_bytes: material,
    };
    let outcome = execute_round_with(
        &[],
        &[],
        Ok(Instruction::Call { node: 1 }),
        Ok(CallResults::new()),
        parameters,
        SignatureStore::new(),
        true,
    )
    .unwrap();
    assert_eq!(outcome.stored, Stored::Added);
    assert_eq!(outcome.signature_store.len(), 1);
    assert_eq!(outcome.signature_store.get(&pair.public_key()), Some(outcome.signature.clone()));
    assert!(verify(&pair.public_key(), &outcome.data, &outcome.signature));
    let mut tampered = outcome.data.clone();
    let last = tampered.len() - 1;
    tampered[last] ^= 0x80;
    assert!(!verify(&pair.public_key(), &tampered, &outcome.signature));
}

#[test]
fn signature_store_flags_a_replaced_signature() {
    let mut store = SignatureStore::new();
    assert_eq!(store.len(), 0);
    assert_eq!(store.get(b"peer"), None);
    assert_eq!(store.put(b"peer", b"first"), Stored::Added);
    assert_eq!(store.put(b"peer", b"first"), Stored::Unchanged);
    assert_eq!(store.put(b"peer", b"second"), Stored::Replaced);
    assert_eq!(store.put(b"other", b"third"), Stored::Added);
    assert_eq!(store.len(), 2);
    assert_eq!(store.get(b"peer"), Some(b"second".to_vec()));
    assert_eq!(store.entry_at(0), (b"other".to_vec(), b"third".to_vec()));
    assert_eq!(store.entry_at(1), (b"peer".to_vec(), b"second".to_vec()));
    let copy = store.duplicate();
    assert_eq!(copy.len(), 2);
    assert_eq!(copy.get(b"other"), Some(b"third".to_vec()));
}

#[test]
fn stored_signature_of_produced_data_passes_and_tampered_data_does_not() {
    let material = ed25519_material();
    let pair = KeyPair::from_secret_key(material.clone(), KeyFormat::Ed25519).unwrap();
    let parameters = RunParameters {
        init_peer_id: b"init".to_vec(),
        current_peer_id: b"peer".to_vec(),
        timestamp: 0,
        ttl: 0,
        key_format: 0,
        secret_key_bytes: material,
    };
    let mut answers = CallResults::new();
    answers.insert(
        1,
        air_core::call_results::CallServiceResult { ret_code: 0, result: b"one".to_vec() },
    );
    let outcome = execute_round_with(
        &[],
        &[],
        Ok(Instruction::Call { node: 1 }),
        Ok(answers),
        parameters,
        SignatureStore::new(),
        true,
    )
    .unwrap();
    let peer = pair.public_key();
    let mut data = air_core::data::InterpreterData::try_from_slice(&outcome.data).unwrap();
    assert_eq!(air_core::runner::verify_data(&data, &peer, &outcome.signature_store), Ok(()));
    assert_eq!(
        air_core::runner::verify_data(&data, b"stranger", &outcome.signature_store),
        Err(air_core::runner::SignatureError::NoSignature)
    );
    data.last_call_request_id += 1;
    assert_eq!(
        air_core::runner::verify_data(&data, &peer, &outcome.signature_store),
        Err(air_core::runner::SignatureError::Rejected)
    );
}

#[test]
fn merged_stores_report_a_conflict() {
    let mut ours = SignatureStore::new();
    ours.put(b"a", b"1");
    ours.put(b"b", b"2");
    let mut theirs = SignatureStore::new();
    theirs.put(b"b", b"2");
    theirs.put(b"c", b"3");
    assert!(!ours.merge(&theirs));
    assert_eq!(ours.len(), 3);
    assert_eq!(ours.get(b"c"), Some(b"3".to_vec()));
    let mut other = SignatureStore::new();
    other.put(b"a", b"changed");
    assert!(ours.merge(&other));
    assert_eq!(ours.len(), 3);
    assert_eq!(ours.get(b"a"), Some(b"changed".to_vec()));
    assert!(!ours.merge(&SignatureStore::new()));
}

#[test]
fn pair_whose_halves_do_not_belong_together_is_refused() {
    let one = ed25519_material();
    let other = ed25519_material();
    let mut mixed = one[..32].to_vec();
    mixed.extend_from_slice(&other[32..]);
    assert_eq!(
        KeyPair::from_secret_key(mixed, KeyFormat::Ed25519).err(),
        Some(KeyError::InvalidSecretKey)
    );
    assert!(KeyPair::from_secret_key(one, KeyFormat::Ed25519).is_ok());
}

#[test]
fn secp256k1_keys_sign_and_are_not_taken_for_checking() {
    let mut secret = vec![0u8; 32];
    secret[31] = 1;
    let pair = KeyPair::from_secret_key(secret, KeyFormat::Secp256k1).unwrap();
    let signature = pair.sign(b"message").unwrap();
    assert_eq!(pair.public_key()[0], 2);
    assert!(!verify(&pair.public_key(), b"message", &signature));
}
