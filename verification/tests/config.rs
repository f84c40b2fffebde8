use enject::config::{config_path, enject_dir, hex_encode, store_path, Config};
use enject::error::EnjectError;

fn fake_salt_hex() -> String {
    hex::encode((0u8..32).collect::<Vec<u8>>())
}

#[test]
fn test_salt_bytes_roundtrip() {
    let original: Vec<u8> = (0u8..32).collect();
    let hex = hex::encode(&original);
    let config = Config::default_new(hex);
    assert_eq!(config.salt_bytes().unwrap(), original);
}

#[test]
fn test_default_new_fields() {
    let salt = fake_salt_hex();
    let config = Config::default_new(salt.clone());
    assert_eq!(config.backend, "password");
    assert_eq!(config.version, 1);
    assert_eq!(config.kdf, "argon2id");
    assert_eq!(config.m_cost, 65536);
    assert_eq!(config.t_cost, 3);
    assert_eq!(config.p_cost, 4);
    assert_eq!(config.salt, salt);
}

#[test]
fn test_kdf_params_match_config() {
    let config = Config::default_new(fake_salt_hex());
    let params = config.kdf_params();
    assert_eq!(params.m_cost, 65536);
    assert_eq!(params.t_cost, 3);
    assert_eq!(params.p_cost, 4);
}

#[test]
fn test_hex_encode_matches_reference() {
    let bytes: Vec<u8> = vec![0x00, 0x0f, 0xa5, 0xff];
    assert_eq!(hex_encode(&bytes), hex::encode(&bytes));
    assert_eq!(hex_encode(&bytes), "000fa5ff");
}

#[test]
fn test_uppercase_hex_accepted() {
    let config = Config::default_new("00FFA5".to_string());
    assert_eq!(config.salt_bytes().unwrap(), vec![0x00, 0xff, 0xa5]);
}

#[test]
fn test_bad_salt_hex_is_config_error() {
    let odd = Config::default_new("abc".to_string());
    assert!(matches!(odd.salt_bytes(), Err(EnjectError::Config(_))));
    let bad_digit = Config::default_new("zz".to_string());
    assert!(matches!(bad_digit.salt_bytes(), Err(EnjectError::Config(_))));
}

#[test]
fn test_legacy_enveil_dir_fallback() {
    // Only the legacy .enveil/ directory exists: everything resolves there.
    assert_eq!(enject_dir("/proj", false, true), "/proj/.enveil");
    assert_eq!(
        config_path("/proj", false, true),
        "/proj/.enveil/config.toml"
    );
    assert_eq!(store_path("/proj", false, true), "/proj/.enveil/store");
}

#[test]
fn test_new_dir_takes_precedence_over_legacy() {
    // Both directories exist: .enject/ wins.
    assert_eq!(enject_dir("/proj", true, true), "/proj/.enject");
}

#[test]
fn test_fresh_project_uses_new_dir() {
    // Neither directory exists yet: the new name is chosen.
    assert_eq!(enject_dir("/proj", false, false), "/proj/.enject");
}
