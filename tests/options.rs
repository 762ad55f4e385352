use w3s_cli::options::TransferOptions;

#[test]
fn options_from_password() {
    let o = TransferOptions::from_flags(&Some("pw".to_owned()), true);
    assert_eq!(o.encryption_key, Some(vec![b'p', b'w']));
    assert!(o.compression);
    let o = TransferOptions::from_flags(&None, false);
    assert_eq!(o.encryption_key, None);
    assert!(!o.compression);
}
