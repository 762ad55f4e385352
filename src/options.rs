use vstd::prelude::*;
use vstd::utf8::encode_utf8;

verus! {

/// How the bytes of one transfer are transformed: encrypted with a key, and
/// compressed or not.
pub struct TransferOptions {
    pub encryption_key: Option<Vec<u8>>,
    pub compression: bool,
}

impl TransferOptions {
    /// The options for a password (encryption keyed by its UTF-8 bytes, or
    /// none without one) and the compression flag.
    pub fn from_flags(password: &Option<String>, compression: bool) -> (r: TransferOptions)
        ensures
            r.compression == compression,
            password is None ==> r.encryption_key is None,
            password is Some ==> r.encryption_key is Some && r.encryption_key->Some_0@
                == encode_utf8(password->Some_0@),
    {
        let encryption_key = match password {
            Some(p) => Some(p.as_str().as_bytes_vec()),
            None => None,
        };
        TransferOptions { encryption_key, compression }
    }
}

} // verus!
