use std::any::TypeId;
use std::collections::HashMap;

use trait_kit::config::{ModuleConfig, ValidationError};
use trait_kit::encryption::{
    derive_kit_field_key, open, seal, wipe_bytes, wipe_key, EncryptedBlob, EncryptedConfigs,
};
use trait_kit::error::TraitKitError;
use trait_kit::interpolate::interpolate_string;

#[derive(Debug, Clone, PartialEq)]
struct SecretConfig {
    api_key: String,
}

impl ModuleConfig for SecretConfig {
    const PATH: &'static str = "secret";

    fn default_value() -> Self {
        SecretConfig {
            api_key: "default".into(),
        }
    }
}

fn vars(pairs: &[(&str, &str)]) -> HashMap<String, String> {
    pairs
        .iter()
        .map(|(k, v)| (k.to_string(), v.to_string()))
        .collect()
}

#[test]
fn getters_return_raw_slices() {
    let blob = EncryptedBlob::new(vec![1, 2, 3], vec![4, 5, 6]);
    assert_eq!(blob.nonce(), &[1, 2, 3]);
    assert_eq!(blob.ciphertext(), &[4, 5, 6]);
}

#[test]
fn getters_return_empty_for_empty_blob() {
    let blob = EncryptedBlob::new(Vec::new(), Vec::new());
    assert!(blob.nonce().is_empty());
    assert!(blob.ciphertext().is_empty());
}

#[test]
fn secret_config_default_value() {
    let default = SecretConfig::default_value();
    assert_eq!(default.api_key, "default");
}

#[test]
fn validation_error_message_joins_failures() {
    let e = ValidationError {
        errors: vec!["port out of range".into(), "host empty".into()],
    };
    assert_eq!(e.message(), "validation failed: port out of range; host empty");
    let none = ValidationError { errors: vec![] };
    assert_eq!(none.message(), "validation failed: ");
}

#[test]
fn interpolate_known_variable() {
    let v = vars(&[("HOST", "db.local")]);
    assert_eq!(interpolate_string("postgres://${HOST}/app", &v), "postgres://db.local/app");
}

#[test]
fn interpolate_default_used_when_unknown() {
    let v = vars(&[]);
    assert_eq!(interpolate_string("port=${PORT:-5432}", &v), "port=5432");
    let v = vars(&[("PORT", "6000")]);
    assert_eq!(interpolate_string("port=${PORT:-5432}", &v), "port=6000");
}

#[test]
fn interpolate_unknown_without_default_is_preserved() {
    let v = vars(&[]);
    assert_eq!(interpolate_string("a ${MISSING} b", &v), "a ${MISSING} b");
}

#[test]
fn interpolate_unclosed_pattern_is_preserved() {
    let v = vars(&[("A", "x")]);
    assert_eq!(interpolate_string("pre ${A:-d", &v), "pre ${A:-d");
    assert_eq!(interpolate_string("end $", &v), "end $");
    assert_eq!(interpolate_string("$A ${A}", &v), "$A x");
}

#[test]
fn interpolate_only_first_separator_splits() {
    let v = vars(&[]);
    assert_eq!(interpolate_string("${X:-a:-b}", &v), "a:-b");
    assert_eq!(interpolate_string("${X:y}", &v), "${X:y}");
    let v = vars(&[("X:y", "colon")]);
    assert_eq!(interpolate_string("${X:y}", &v), "colon");
}

#[test]
fn interpolate_multiple_patterns() {
    let v = vars(&[("A", "1"), ("B", "2")]);
    assert_eq!(interpolate_string("${A}-${B}-${C:-3}", &v), "1-2-3");
    assert_eq!(interpolate_string("", &v), "");
}

#[test]
fn field_key_depends_on_path() {
    let master = [7u8; 32];
    let a = derive_kit_field_key(&master, "a", "test").unwrap();
    let a2 = derive_kit_field_key(&master, "a", "test").unwrap();
    let b = derive_kit_field_key(&master, "b", "test").unwrap();
    assert_eq!(a, a2);
    assert_ne!(a, b);
    assert_ne!(a, master);
}

#[test]
fn seal_then_open_round_trips() {
    let master = [0x42u8; 32];
    let blob = seal(b"{\"api_key\":\"secret\"}", &master, "secret", "set_encrypted").unwrap();
    assert_eq!(blob.nonce().len(), 24);
    let back = open(&blob, &master, "secret", "get_encrypted").unwrap();
    assert_eq!(back, b"{\"api_key\":\"secret\"}".to_vec());
}

#[test]
fn open_with_wrong_key_fails() {
    let master = [0x42u8; 32];
    let blob = seal(b"payload", &master, "secret", "set_encrypted").unwrap();
    let wrong = [0xFFu8; 32];
    let err = open(&blob, &wrong, "secret", "get_encrypted").unwrap_err();
    assert!(matches!(err, TraitKitError::BuildFailed { ref context, .. } if context == "get_encrypted"));
    let err = open(&blob, &master, "other-path", "get_encrypted").unwrap_err();
    assert!(matches!(err, TraitKitError::BuildFailed { .. }));
}

#[test]
fn short_master_key_is_rejected() {
    let err = match seal(b"payload", &[1u8; 15], "secret", "set_encrypted") {
        Err(e) => e,
        Ok(_) => panic!("a 15-byte master key must be refused"),
    };
    assert!(matches!(err, TraitKitError::BuildFailed { ref context, .. } if context == "set_encrypted"));
    assert_eq!(err.message(), "failed to build `set_encrypted`");
}

#[test]
fn encrypted_configs_store_and_read_back() {
    let mut store = EncryptedConfigs::new();
    let master = [9u8; 32];
    assert!(!store.contains_encrypted::<SecretConfig>());
    store.set_encrypted::<SecretConfig>(b"hello", &master).unwrap();
    assert!(store.contains_encrypted::<SecretConfig>());
    let id = TypeId::of::<SecretConfig>();
    let back = store
        .get_encrypted_by_type_id(id, SecretConfig::PATH, "SecretConfig", &master)
        .unwrap();
    assert_eq!(back, b"hello".to_vec());
    let missing = store
        .get_encrypted_by_type_id(TypeId::of::<u8>(), "u8", "u8", &master)
        .unwrap_err();
    assert!(matches!(missing, TraitKitError::MissingConfig { ref key } if key == "u8"));
}

#[test]
fn interpolate_plain_text_unchanged() {
    let v = vars(&[("A", "x")]);
    assert_eq!(interpolate_string("no patterns $ here {A}", &v), "no patterns $ here {A}");
}

#[test]
fn interpolate_value_inserted_literally() {
    let v = vars(&[("A", "${B}"), ("B", "x")]);
    assert_eq!(interpolate_string("${A}", &v), "${B}");
    let empty = vars(&[]);
    assert_eq!(interpolate_string("${A:-x", &empty), "${A:-x");
}

#[test]
fn wipe_bytes_and_key_clear_to_zeros() {
    let mut buf = vec![0xA5u8; 64];
    wipe_bytes(&mut buf);
    assert_eq!(buf.len(), 64);
    assert!(buf.iter().all(|&b| b == 0));
    let mut key = [0x11u8; 32];
    wipe_key(&mut key);
    assert!(key.iter().all(|&b| b == 0));
}
