use sigyn::error::AppError;
use sigyn::keychain::{
    auth_error_message, authentication_outcome, generate_master_key, keychain_error, keychain_read_outcome, keychain_write_outcome,
    reply_error_message, LA_APP_CANCEL, LA_BIOMETRY_NOT_ENROLLED, LA_PASSCODE_NOT_SET, LA_SYSTEM_CANCEL, LA_USER_CANCEL,
    MASTER_KEY_SIZE, STATUS_ITEM_NOT_FOUND,
};
use sigyn::master_key::{load_or_create_master_key, MasterKeyDecision};
use sigyn::model::{CreateEntryInput, CreateProjectInput, EntryValueInput};
use sigyn::store::Store;

fn auth_message(e: AppError) -> String {
    match e {
        AppError::Auth(m) => m,
        _ => panic!("expected an auth error"),
    }
}

#[test]
fn keychain_status_messages() {
    assert_eq!(auth_message(keychain_error(-128)), "unlock canceled");
    assert_eq!(
        auth_message(keychain_error(-34018)),
        "keychain access is missing the entitlements required for the data protection keychain"
    );
    assert_eq!(auth_message(keychain_error(-25293)), "authentication failed");
    assert_eq!(auth_message(keychain_error(-25299)), "keychain operation failed (OSStatus -25299)");
    assert_eq!(auth_message(keychain_error(7)), "keychain operation failed (OSStatus 7)");
    assert_eq!(auth_message(keychain_error(i32::MIN)), "keychain operation failed (OSStatus -2147483648)");
}

#[test]
fn keychain_read_and_write_outcomes() {
    assert_eq!(keychain_read_outcome(0, vec![1, 2]).ok(), Some(Some(vec![1, 2])));
    assert_eq!(keychain_read_outcome(STATUS_ITEM_NOT_FOUND, vec![]).ok(), Some(None));
    assert_eq!(auth_message(keychain_read_outcome(-128, vec![]).err().unwrap()), "unlock canceled");
    assert!(keychain_write_outcome(0).is_ok());
    assert_eq!(auth_message(keychain_write_outcome(-25299).err().unwrap()), "keychain operation failed (OSStatus -25299)");
}

#[test]
fn generated_keys_are_32_random_bytes() {
    let a = generate_master_key();
    let b = generate_master_key();
    assert_eq!(a.len(), MASTER_KEY_SIZE);
    assert_eq!(b.len(), 32);
    assert_ne!(a, b);
}

#[test]
fn authentication_messages() {
    assert_eq!(auth_error_message(LA_USER_CANCEL, "x".to_string()), "unlock canceled");
    assert_eq!(auth_error_message(LA_SYSTEM_CANCEL, "x".to_string()), "unlock was interrupted by macOS");
    assert_eq!(auth_error_message(LA_APP_CANCEL, "x".to_string()), "unlock was canceled by the app");
    assert_eq!(auth_error_message(LA_BIOMETRY_NOT_ENROLLED, "x".to_string()), "Touch ID is not set up on this Mac");
    assert_eq!(
        auth_error_message(LA_PASSCODE_NOT_SET, "x".to_string()),
        "password authentication is unavailable because no device password is set"
    );
    assert_eq!(auth_error_message(-1, "Authentication failed.".to_string()), "Authentication failed.");
    assert_eq!(reply_error_message(None), "authentication failed");
    assert_eq!(reply_error_message(Some((-2, "x".to_string()))), "unlock canceled");
    assert!(authentication_outcome(true, None).is_ok());
    assert_eq!(auth_message(authentication_outcome(false, None).err().unwrap()), "authentication failed");
}

#[test]
fn master_key_decisions() {
    let mut store = Store::new();
    assert!(matches!(load_or_create_master_key(Some(vec![4; 32]), &store), MasterKeyDecision::Use(k) if k == vec![4; 32]));
    assert!(matches!(load_or_create_master_key(None, &store), MasterKeyDecision::Create));
    let s = store
        .create_project(CreateProjectInput { name: "P".to_string(), supported_environments: vec!["dev".to_string()], working_directory: None })
        .ok()
        .unwrap();
    store
        .create_entry(
            CreateEntryInput {
                project_id: s.projects[0].id.clone(),
                name: "K".to_string(),
                category: None,
                description: None,
                values: vec![EntryValueInput { environment: "dev".to_string(), present: true, value: "v".to_string() }],
            },
            &[1u8; 32],
        )
        .ok()
        .unwrap();
    match load_or_create_master_key(None, &store) {
        MasterKeyDecision::Refuse(AppError::Auth(m)) => assert_eq!(
            m,
            "no master key was found for existing encrypted data \u{2014} restore the previous keychain item or clear the local test data"
        ),
        _ => panic!("expected a refusal"),
    }
}
