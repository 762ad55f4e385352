use w3s_cli::credentials::{token_from_contents, CredentialError};

#[test]
fn empty_store_is_missing_credential() {
    assert_eq!(token_from_contents(String::new()), Err(CredentialError::MissingCredential));
}

#[test]
fn remembered_token_is_returned() {
    assert_eq!(token_from_contents("abc".to_owned()), Ok("abc".to_owned()));
    assert_eq!(token_from_contents("def".to_owned()), Ok("def".to_owned()));
}

#[test]
fn error_messages() {
    assert_eq!(
        CredentialError::MissingCredential.message(),
        "No API token found, please remember API token first"
    );
    assert_eq!(CredentialError::HomeDirUnavailable.message(), "unable to get the home dir path");
}
