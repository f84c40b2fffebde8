use enject::error::EnjectError;

#[test]
fn test_messages_name_the_missing_secret() {
    let e = EnjectError::SecretNotFound("db_url".to_string());
    assert_eq!(
        e.message(),
        "Secret 'db_url' not found in store. Add it with: enject set db_url"
    );
}

#[test]
fn test_each_kind_has_a_message() {
    assert_eq!(
        EnjectError::StoreNotInitialized.message(),
        "Store not initialized. Run `enject init` first."
    );
    assert_eq!(
        EnjectError::DecryptionFailed.message(),
        "Wrong Enject store password, or store is corrupted."
    );
    assert_eq!(
        EnjectError::CorruptStore("too short".to_string()).message(),
        "Store is corrupted: too short"
    );
    assert_eq!(
        EnjectError::Config("bad salt".to_string()).message(),
        "Config error: bad salt"
    );
    assert_eq!(
        EnjectError::Serialization("too large".to_string()).message(),
        "Serialization error: too large"
    );
}
