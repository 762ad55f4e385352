use vstd::prelude::*;
use vstd::utf8::encode_utf8;
use crate::units::{decimal, decimal_string};

verus! {

/// The token given to the `remember` command.
#[derive(Clone)]
pub struct GeneralArgs {
    pub value: String,
}

/// A path to upload and how many parts may travel at once.
#[derive(Clone)]
pub struct UploadArgs {
    pub value: String,
    pub max_concurrent: u8,
}

/// A gateway URL to download from and where to put the result.
#[derive(Clone)]
pub struct DownloadArgs {
    pub value: String,
    pub to_path: Option<String>,
}

/// One command of the client.
#[derive(Clone)]
pub enum Job {
    Remember(GeneralArgs),
    UploadDir(UploadArgs),
    UploadFile(UploadArgs),
    DownloadFile(DownloadArgs),
    DownloadDir(DownloadArgs),
}

/// The command together with the global flags.
#[derive(Clone)]
pub struct CliArgs {
    pub job: Job,
    pub with_encryption: Option<String>,
    pub with_compression: bool,
}

/// Index of the last `/` in `s`, or -1 when it has none.
pub open spec fn last_slash(s: Seq<char>) -> int
    decreases s.len(),
{
    if s.len() == 0 {
        -1
    } else if s.last() == '/' {
        s.len() - 1
    } else {
        last_slash(s.drop_last())
    }
}

/// The name a download is saved under when none is given: what follows the
/// last `/` of the URL, or `downloaded` for a URL without one.
pub open spec fn file_name_of(url: Seq<char>) -> Seq<char> {
    if last_slash(url) < 0 {
        "downloaded"@
    } else {
        url.subrange(last_slash(url) + 1, url.len() as int)
    }
}

pub open spec fn target_filename(a: DownloadArgs) -> Seq<char> {
    match a.to_path {
        Some(p) => p@,
        None => file_name_of(a.value@),
    }
}

pub open spec fn target_dir(a: DownloadArgs) -> Seq<char> {
    match a.to_path {
        Some(p) => p@,
        None => "w3s_downloaded"@,
    }
}

pub open spec fn upload_text(a: UploadArgs) -> Seq<char> {
    a.value@ + "\n  max concurrent -> "@ + decimal(a.max_concurrent as nat)
}

pub open spec fn download_text(a: DownloadArgs) -> Seq<char> {
    a.value@ + "\n  save to file -> "@ + target_filename(a)
}

pub open spec fn job_text(j: Job) -> Seq<char> {
    match j {
        Job::Remember(a) => "Remember API token: "@ + a.value@,
        Job::DownloadDir(a) => "Download directory from: "@ + a.value@ + "\n  save to folder -> "@
            + target_dir(a),
        Job::DownloadFile(a) => "Download file form: "@ + download_text(a),
        Job::UploadDir(a) => "Upload this directory: "@ + upload_text(a),
        Job::UploadFile(a) => "Upload this file: "@ + upload_text(a),
    }
}

pub open spec fn bool_text(b: bool) -> Seq<char> {
    if b {
        "true"@
    } else {
        "false"@
    }
}

/// Length in bytes of the UTF-8 encoding of `s`.
pub open spec fn utf8_len(s: Seq<char>) -> usize {
    encode_utf8(s).len() as usize
}

/// Shows a password by its byte length only.
pub open spec fn encryption_text(p: Option<String>) -> Seq<char> {
    match p {
        Some(pwd) => "password length: "@ + decimal(utf8_len(pwd@) as nat),
        None => "false"@,
    }
}

/// Labels of the two flags: a file download undoes what an upload did.
pub open spec fn flag_labels(j: Job) -> (Seq<char>, Seq<char>) {
    match j {
        Job::DownloadFile(_) => ("decryption"@, "decompression"@),
        _ => ("encryption"@, "compression"@),
    }
}

pub open spec fn cli_text(c: CliArgs) -> Seq<char> {
    "Arguments used:\n  Job -> "@ + job_text(c.job) + "\n  "@ + flag_labels(c.job).0 + " -> "@
        + encryption_text(c.with_encryption) + "\n  "@ + flag_labels(c.job).1 + " -> "@
        + bool_text(c.with_compression) + "\n\n"@
}

proof fn lemma_last_slash_at(s: Seq<char>, i: int)
    requires
        0 <= i <= s.len(),
        forall|j: int| i <= j < s.len() ==> s[j] != '/',
        i == 0 || s[i - 1] == '/',
    ensures
        last_slash(s) == i - 1,
    decreases s.len(),
{
    if s.len() > 0 && i < s.len() {
        lemma_last_slash_at(s.drop_last(), i);
    }
}

impl GeneralArgs {
    pub fn describe(&self) -> (r: String)
        ensures
            r@ == self.value@,
    {
        self.value.clone()
    }
}

impl UploadArgs {
    /// The path, then the concurrency bound on a line of its own.
    pub fn describe(&self) -> (r: String)
        ensures
            r@ == upload_text(*self),
    {
        let mut s = self.value.clone();
        s.append("\n  max concurrent -> ");
        let n = decimal_string(self.max_concurrent as u128);
        s.append(n.as_str());
        s
    }
}

impl DownloadArgs {
    /// The file name to save to: the explicit target when there is one,
    /// else the part of the URL after its last `/`, else `downloaded`.
    pub fn get_target_filename(&self) -> (r: &str)
        ensures
            r@ == target_filename(*self),
    {
        match &self.to_path {
            Some(x) => x.as_str(),
            None => {
                let s = self.value.as_str();
                let n = s.unicode_len();
                let mut i: usize = n;
                while i > 0 && s.get_char(i - 1) != '/'
                    invariant
                        n == s@.len(),
                        i <= n,
                        forall|j: int| i <= j < n ==> s@[j] != '/',
                    decreases i,
                {
                    i = i - 1;
                }
                proof {
                    lemma_last_slash_at(s@, i as int);
                }
                if i == 0 {
                    "downloaded"
                } else {
                    s.substring_char(i, n)
                }
            },
        }
    }

    /// The directory to save a downloaded directory in: the explicit target,
    /// else `w3s_downloaded`.
    pub fn get_target_dir(&self) -> (r: &str)
        ensures
            r@ == target_dir(*self),
    {
        match &self.to_path {
            Some(x) => x.as_str(),
            None => "w3s_downloaded",
        }
    }

    /// The URL, then the file name it is saved to on a line of its own.
    pub fn describe(&self) -> (r: String)
        ensures
            r@ == download_text(*self),
    {
        let mut s = self.value.clone();
        s.append("\n  save to file -> ");
        s.append(self.get_target_filename());
        s
    }
}

impl Job {
    /// What the job will do, in words.
    pub fn describe(&self) -> (r: String)
        ensures
            r@ == job_text(*self),
    {
        match self {
            Job::Remember(a) => {
                let mut s = String::from_str("Remember API token: ");
                s.append(a.value.as_str());
                s
            },
            Job::DownloadDir(a) => {
                let mut s = String::from_str("Download directory from: ");
                s.append(a.value.as_str());
                s.append("\n  save to folder -> ");
                s.append(a.get_target_dir());
                s
            },
            Job::DownloadFile(a) => {
                let mut s = String::from_str("Download file form: ");
                s.append(a.describe().as_str());
                s
            },
            Job::UploadDir(a) => {
                let mut s = String::from_str("Upload this directory: ");
                s.append(a.describe().as_str());
                s
            },
            Job::UploadFile(a) => {
                let mut s = String::from_str("Upload this file: ");
                s.append(a.describe().as_str());
                s
            },
        }
    }
}

impl CliArgs {
    /// The arguments in use: the job, then both flags under the labels that
    /// fit the job.
    pub fn describe(&self) -> (r: String)
        ensures
            r@ == cli_text(*self),
    {
        let (enc_label, comp_label) = match self.job {
            Job::DownloadFile(_) => ("decryption", "decompression"),
            _ => ("encryption", "compression"),
        };
        let mut s = String::from_str("Arguments used:\n  Job -> ");
        s.append(self.job.describe().as_str());
        s.append("\n  ");
        s.append(enc_label);
        s.append(" -> ");
        let ghost before = s@;
        match &self.with_encryption {
            Some(pwd) => {
                s.append("password length: ");
                let len = pwd.as_str().len();
                assert(len == utf8_len(pwd@));
                let n = decimal_string(len as u128);
                s.append(n.as_str());
            },
            None => {
                s.append("false");
            },
        }
        assert(s@ =~= before + encryption_text(self.with_encryption));
        s.append("\n  ");
        s.append(comp_label);
        s.append(" -> ");
        if self.with_compression {
            s.append("true");
        } else {
            s.append("false");
        }
        s.append("\n\n");
        s
    }
}

} // verus!
