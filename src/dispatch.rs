use vstd::prelude::*;
use crate::args::{target_dir, target_filename, Job};

verus! {

/// The single step a job comes down to, with every default already resolved.
pub enum Transfer {
    /// Store the token as the credential.
    Remember { token: String },
    /// Upload one file, at most `max_concurrent` parts at a time.
    UploadFile { path: String, max_concurrent: u8 },
    /// Upload a directory, at most `max_concurrent` parts at a time.
    UploadDir { path: String, max_concurrent: u8 },
    /// Download `url` into the file `file_name`.
    DownloadFile { url: String, file_name: String },
    /// Download the directory at `url` into `dir`.
    DownloadDir { url: String, dir: String },
}

/// What `job` comes down to.
pub open spec fn planned(job: Job, t: Transfer) -> bool {
    match job {
        Job::Remember(a) => t matches Transfer::Remember { token } && token@ == a.value@,
        Job::UploadFile(a) => t matches Transfer::UploadFile { path, max_concurrent }
            && path@ == a.value@ && max_concurrent == a.max_concurrent,
        Job::UploadDir(a) => t matches Transfer::UploadDir { path, max_concurrent }
            && path@ == a.value@ && max_concurrent == a.max_concurrent,
        Job::DownloadFile(a) => t matches Transfer::DownloadFile { url, file_name }
            && url@ == a.value@ && file_name@ == target_filename(a),
        Job::DownloadDir(a) => t matches Transfer::DownloadDir { url, dir }
            && url@ == a.value@ && dir@ == target_dir(a),
    }
}

impl Job {
    /// Routes the job to its transfer: the concurrency bound is passed on
    /// unchanged, and a download gets its target file or directory.
    pub fn plan(&self) -> (r: Transfer)
        ensures
            planned(*self, r),
    {
        match self {
            Job::Remember(a) => Transfer::Remember { token: a.value.clone() },
            Job::UploadFile(a) => Transfer::UploadFile {
                path: a.value.clone(),
                max_concurrent: a.max_concurrent,
            },
            Job::UploadDir(a) => Transfer::UploadDir {
                path: a.value.clone(),
                max_concurrent: a.max_concurrent,
            },
            Job::DownloadFile(a) => Transfer::DownloadFile {
                url: a.value.clone(),
                file_name: String::from_str(a.get_target_filename()),
            },
            Job::DownloadDir(a) => Transfer::DownloadDir {
                url: a.value.clone(),
                dir: String::from_str(a.get_target_dir()),
            },
        }
    }
}

} // verus!
