use w3s_cli::args::{CliArgs, DownloadArgs, GeneralArgs, Job, UploadArgs};

fn download(value: &str, to_path: Option<&str>) -> DownloadArgs {
    DownloadArgs { value: value.to_owned(), to_path: to_path.map(|s| s.to_owned()) }
}

#[test]
fn filename_from_url_tail() {
    let a = download("https://gw/ipfs/bafy.../a/b/report.pdf", None);
    assert_eq!(a.get_target_filename(), "report.pdf");
}

#[test]
fn filename_fallback_without_slash() {
    let a = download("bafyonlycid", None);
    assert_eq!(a.get_target_filename(), "downloaded");
}

#[test]
fn filename_explicit_target_wins() {
    let a = download("https://gw/ipfs/x/report.pdf", Some("mine.pdf"));
    assert_eq!(a.get_target_filename(), "mine.pdf");
}

#[test]
fn filename_after_trailing_slash_is_empty() {
    let a = download("https://gw/ipfs/x/", None);
    assert_eq!(a.get_target_filename(), "");
}

#[test]
fn filename_with_non_ascii() {
    let a = download("https://gw/ipfs/x/résumé.pdf", None);
    assert_eq!(a.get_target_filename(), "résumé.pdf");
}

#[test]
fn target_dir_default() {
    assert_eq!(download("https://gw/ipfs/x", None).get_target_dir(), "w3s_downloaded");
    assert_eq!(download("https://gw/ipfs/x", Some("out")).get_target_dir(), "out");
}

#[test]
fn describe_jobs() {
    let remember = Job::Remember(GeneralArgs { value: "tok".to_owned() });
    assert_eq!(remember.describe(), "Remember API token: tok");
    let up = UploadArgs { value: "dir".to_owned(), max_concurrent: 12 };
    assert_eq!(up.describe(), "dir\n  max concurrent -> 12");
    assert_eq!(
        Job::UploadDir(up.clone()).describe(),
        "Upload this directory: dir\n  max concurrent -> 12"
    );
    assert_eq!(
        Job::UploadFile(up).describe(),
        "Upload this file: dir\n  max concurrent -> 12"
    );
    let down = download("https://gw/ipfs/x/a.txt", None);
    assert_eq!(down.describe(), "https://gw/ipfs/x/a.txt\n  save to file -> a.txt");
    assert_eq!(
        Job::DownloadFile(down.clone()).describe(),
        "Download file form: https://gw/ipfs/x/a.txt\n  save to file -> a.txt"
    );
    assert_eq!(
        Job::DownloadDir(down).describe(),
        "Download directory from: https://gw/ipfs/x/a.txt\n  save to folder -> w3s_downloaded"
    );
}

#[test]
fn describe_cli_upload() {
    let c = CliArgs {
        job: Job::UploadFile(UploadArgs { value: "f".to_owned(), max_concurrent: 1 }),
        with_encryption: Some("pässword".to_owned()),
        with_compression: true,
    };
    assert_eq!(
        c.describe(),
        "Arguments used:\n  Job -> Upload this file: f\n  max concurrent -> 1\n  encryption -> password length: 9\n  compression -> true\n\n"
    );
}

#[test]
fn describe_cli_download_file() {
    let c = CliArgs {
        job: Job::DownloadFile(download("u/v", Some("w"))),
        with_encryption: None,
        with_compression: false,
    };
    assert_eq!(
        c.describe(),
        "Arguments used:\n  Job -> Download file form: u/v\n  save to file -> w\n  decryption -> false\n  decompression -> false\n\n"
    );
}
