use vstd::prelude::*;

verus! {

/// Why no API token could be had.
#[derive(Clone, Copy, Debug, PartialEq, Eq)]
pub enum CredentialError {
    /// The credential file is empty: no token was remembered yet.
    MissingCredential,
    /// The home directory, under which the credential file lives, is unknown.
    HomeDirUnavailable,
}

impl CredentialError {
    pub fn message(&self) -> (r: &'static str)
        ensures
            r@ == (match self {
                CredentialError::MissingCredential => "No API token found, please remember API token first"@,
                CredentialError::HomeDirUnavailable => "unable to get the home dir path"@,
            }),
    {
        match self {
            CredentialError::MissingCredential => "No API token found, please remember API token first",
            CredentialError::HomeDirUnavailable => "unable to get the home dir path",
        }
    }
}

/// The token held by a credential file with these contents; an empty file
/// is the mark of a token never remembered.
pub fn token_from_contents(contents: String) -> (r: Result<String, CredentialError>)
    ensures
        contents@.len() == 0 ==> r == Err::<String, CredentialError>(CredentialError::MissingCredential),
        contents@.len() > 0 ==> r is Ok && r->Ok_0@ == contents@,
{
    if contents.as_str().is_empty() {
        Err(CredentialError::MissingCredential)
    } else {
        Ok(contents)
    }
}

} // verus!
