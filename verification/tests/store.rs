use enject::crypto::SecretValue;
use enject::store::{KdfParams, PasswordStore};

const NONCE_LEN: usize = 12;

fn test_params() -> KdfParams {
    // Very low cost for fast tests
    KdfParams {
        m_cost: 8192,
        t_cost: 1,
        p_cost: 1,
    }
}

fn test_salt() -> Vec<u8> {
    (0u8..32).collect()
}

fn test_password() -> SecretValue {
    SecretValue::new("test-password-do-not-use".to_string())
}

fn setup_unlocked_store() -> PasswordStore {
    let mut store = PasswordStore::new("store".to_string(), test_params(), test_salt());
    store.unlock(&test_password(), None).unwrap();
    store
}

#[test]
fn test_encrypt_decrypt_roundtrip() {
    let password = test_password();

    let mut store = PasswordStore::new("store".to_string(), test_params(), test_salt());
    store.unlock(&password, None).unwrap();
    store
        .set("my_key", SecretValue::new("super-secret-value".to_string()))
        .unwrap();
    let blob = store.save(&password).unwrap();

    // Reload from the written bytes
    let mut store2 = PasswordStore::new("store".to_string(), test_params(), test_salt());
    store2.unlock(&password, Some(&blob)).unwrap();
    let retrieved = store2.get("my_key").unwrap().expect("key should exist");
    assert_eq!(retrieved.expose(), "super-secret-value");
}

#[test]
fn test_wrong_password_returns_err() {
    let password = test_password();
    let wrong = SecretValue::new("wrong-password".to_string());

    let mut store = PasswordStore::new("store".to_string(), test_params(), test_salt());
    store.unlock(&password, None).unwrap();
    store
        .set("key", SecretValue::new("val".to_string()))
        .unwrap();
    let blob = store.save(&password).unwrap();

    let mut store2 = PasswordStore::new("store".to_string(), test_params(), test_salt());
    let result = store2.unlock(&wrong, Some(&blob));
    assert!(result.is_err(), "Wrong password should return Err");
}

#[test]
fn test_tampered_ciphertext_returns_err() {
    let password = test_password();

    let mut store = PasswordStore::new("store".to_string(), test_params(), test_salt());
    store.unlock(&password, None).unwrap();
    store
        .set("key", SecretValue::new("val".to_string()))
        .unwrap();
    let blob = store.save(&password).unwrap();

    // Flip a byte in the ciphertext region (past the nonce)
    let mut bytes = blob.clone();
    bytes[NONCE_LEN + 5] ^= 0xFF;

    let mut store2 = PasswordStore::new("store".to_string(), test_params(), test_salt());
    let result = store2.unlock(&password, Some(&bytes));
    assert!(result.is_err(), "Tampered ciphertext should return Err");
}

#[test]
fn test_list_returns_sorted_keys() {
    let mut store = setup_unlocked_store();

    store
        .set("zebra", SecretValue::new("z".to_string()))
        .unwrap();
    store
        .set("apple", SecretValue::new("a".to_string()))
        .unwrap();
    store
        .set("mango", SecretValue::new("m".to_string()))
        .unwrap();

    let keys = store.list().unwrap();
    assert_eq!(keys, vec!["apple", "mango", "zebra"]);
}

#[test]
fn test_set_same_key_overwrites() {
    let mut store = setup_unlocked_store();
    store
        .set("k", SecretValue::new("first".to_string()))
        .unwrap();
    store
        .set("k", SecretValue::new("second".to_string()))
        .unwrap();
    assert_eq!(store.get("k").unwrap().unwrap().expose(), "second");
    assert_eq!(store.list().unwrap(), vec!["k"]);
}

#[test]
fn test_delete_existing_key() {
    let mut store = setup_unlocked_store();

    store
        .set("to_delete", SecretValue::new("v".to_string()))
        .unwrap();
    assert!(store.delete("to_delete").unwrap());
    assert!(store.get("to_delete").unwrap().is_none());
}

#[test]
fn test_delete_nonexistent_key() {
    let mut store = setup_unlocked_store();
    assert!(!store.delete("nonexistent").unwrap());
}

#[test]
fn test_get_missing_key_returns_none() {
    let store = setup_unlocked_store();
    assert!(store.get("missing").unwrap().is_none());
}

#[test]
fn test_nonce_changes_on_each_save() {
    let password = test_password();

    let mut store = PasswordStore::new("store".to_string(), test_params(), test_salt());
    store.unlock(&password, None).unwrap();
    store.set("k", SecretValue::new("v".to_string())).unwrap();

    let nonce1 = store.save(&password).unwrap()[..NONCE_LEN].to_vec();
    let nonce2 = store.save(&password).unwrap()[..NONCE_LEN].to_vec();

    // Nonces should almost certainly differ (probability of collision is negligible)
    assert_ne!(
        nonce1, nonce2,
        "Nonce should be freshly generated on every write"
    );
}

#[test]
fn test_operations_before_unlock_fail() {
    let mut store = PasswordStore::new("store".to_string(), test_params(), test_salt());
    assert!(store.get("k").is_err());
    assert!(store.set("k", SecretValue::new("v".to_string())).is_err());
    assert!(store.delete("k").is_err());
    assert!(store.list().is_err());
    assert!(store.save(&test_password()).is_err());
}

#[test]
fn test_short_file_is_corrupt() {
    let mut store = PasswordStore::new("store".to_string(), test_params(), test_salt());
    let short = vec![1u8, 2, 3];
    let result = store.unlock(&test_password(), Some(&short));
    assert!(matches!(
        result,
        Err(enject::error::EnjectError::CorruptStore(_))
    ));
}

#[test]
fn test_create_empty_unlocks_elsewhere() {
    let password = test_password();
    let (store, blob) =
        PasswordStore::create_empty("store".to_string(), test_params(), test_salt(), &password)
            .unwrap();
    assert_eq!(store.list().unwrap().len(), 0);

    let mut reopened = PasswordStore::new("store".to_string(), test_params(), test_salt());
    reopened.unlock(&password, Some(&blob)).unwrap();
    assert_eq!(reopened.list().unwrap().len(), 0);
}

#[test]
fn test_password_rotation() {
    // Unlock with the old password, save with a new one: only the new
    // password opens the result.
    let old_password = test_password();
    let new_password = SecretValue::new("rotated".to_string());

    let mut store = PasswordStore::new("store".to_string(), test_params(), test_salt());
    store.unlock(&old_password, None).unwrap();
    store
        .set("k", SecretValue::new("v".to_string()))
        .unwrap();
    let blob = store.save(&new_password).unwrap();

    let mut with_old = PasswordStore::new("store".to_string(), test_params(), test_salt());
    assert!(with_old.unlock(&old_password, Some(&blob)).is_err());

    let mut with_new = PasswordStore::new("store".to_string(), test_params(), test_salt());
    with_new.unlock(&new_password, Some(&blob)).unwrap();
    assert_eq!(with_new.get("k").unwrap().unwrap().expose(), "v");
}

#[test]
fn test_build_secrets_map_snapshots_the_store() {
    let mut store = setup_unlocked_store();
    store
        .set("db_url", SecretValue::new("postgres://x".to_string()))
        .unwrap();
    store
        .set("api_key", SecretValue::new("k-123".to_string()))
        .unwrap();

    let map = enject::store::build_secrets_map(&store).unwrap();
    assert_eq!(map.get("db_url"), Some(&"postgres://x".to_string()));
    assert_eq!(map.get("api_key"), Some(&"k-123".to_string()));
    assert!(map.get("absent").is_none());
}

#[test]
fn test_degenerate_kdf_params_rejected() {
    let params = KdfParams {
        m_cost: 1,
        t_cost: 0,
        p_cost: 0,
    };
    let mut store = PasswordStore::new("store".to_string(), params, test_salt());
    store.unlock(&test_password(), None).unwrap();
    let result = store.save(&test_password());
    assert!(matches!(
        result,
        Err(enject::error::EnjectError::Config(_))
    ));
}
