use w3s_cli::args::{DownloadArgs, GeneralArgs, Job, UploadArgs};
use w3s_cli::dispatch::Transfer;

#[test]
fn plan_remember() {
    let j = Job::Remember(GeneralArgs { value: "tok".to_owned() });
    assert!(matches!(j.plan(), Transfer::Remember { token } if token == "tok"));
}

#[test]
fn plan_uploads_keep_concurrency() {
    let a = UploadArgs { value: "p".to_owned(), max_concurrent: 16 };
    assert!(matches!(Job::UploadFile(a.clone()).plan(),
        Transfer::UploadFile { path, max_concurrent: 16 } if path == "p"));
    assert!(matches!(Job::UploadDir(a).plan(),
        Transfer::UploadDir { path, max_concurrent: 16 } if path == "p"));
}

#[test]
fn plan_downloads_resolve_targets() {
    let a = DownloadArgs { value: "https://gw/ipfs/c/x.bin".to_owned(), to_path: None };
    assert!(matches!(Job::DownloadFile(a.clone()).plan(),
        Transfer::DownloadFile { url, file_name } if url == "https://gw/ipfs/c/x.bin" && file_name == "x.bin"));
    assert!(matches!(Job::DownloadDir(a).plan(),
        Transfer::DownloadDir { dir, .. } if dir == "w3s_downloaded"));
    let b = DownloadArgs { value: "cid".to_owned(), to_path: Some("out".to_owned()) };
    assert!(matches!(Job::DownloadFile(b.clone()).plan(),
        Transfer::DownloadFile { file_name, .. } if file_name == "out"));
    assert!(matches!(Job::DownloadDir(b).plan(),
        Transfer::DownloadDir { dir, .. } if dir == "out"));
}
