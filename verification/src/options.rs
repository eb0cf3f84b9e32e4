//! Rules for the options that the server is started with.

use vstd::prelude::*;
use vstd::string::*;
use vstd::utf8::*;

verus! {

/// The byte between the user name and the password.
pub const COLON: u8 = 0x3A;

/// What is wrong with the credentials for HTTP Basic Auth.
#[derive(Clone, Copy, Debug, PartialEq, Eq, Structural)]
pub enum AuthError {
    NoPassword,
    NoUsername,
}

impl AuthError {
    /// The complaint in words.
    pub fn message(&self) -> (text: &'static str)
        ensures
            text@ == match *self {
                AuthError::NoPassword => "no password found"@,
                AuthError::NoUsername => "no username found"@,
            },
    {
        match self {
            AuthError::NoPassword => "no password found",
            AuthError::NoUsername => "no username found",
        }
    }
}

/// Whether the first colon of `bytes` stands at `k`.
pub open spec fn is_first_colon(bytes: Seq<u8>, k: int) -> bool {
    &&& 0 <= k < bytes.len()
    &&& bytes[k] == COLON
    &&& forall|j: int| 0 <= j < k ==> bytes[j] != COLON
}

/// What is wrong with credentials of the form `username:password`, where
/// the user name ends at the first colon. A missing password is reported
/// before a missing user name.
pub open spec fn auth_error(bytes: Seq<u8>) -> Option<AuthError> {
    if !exists|k: int| is_first_colon(bytes, k) && k < bytes.len() - 1 {
        Some(AuthError::NoPassword)
    } else if bytes[0] == COLON {
        Some(AuthError::NoUsername)
    } else {
        None
    }
}

/// Checks credentials of the form `username:password`: both parts must be
/// there.
pub fn check_auth(text: &str) -> (r: Result<(), AuthError>)
    ensures
        r is Ok <==> auth_error(encode_utf8(text@)) is None,
        r is Err ==> auth_error(encode_utf8(text@)) == Some(r->Err_0),
{
    let bytes = text.as_bytes();
    let n = bytes.len();
    let mut k: usize = 0;
    while k < n && bytes[k] != COLON
        invariant
            k <= n,
            n == bytes.len(),
            forall|j: int| 0 <= j < k ==> bytes@[j] != COLON,
        decreases n - k,
    {
        k += 1;
    }
    if k >= n || k == n - 1 {
        assert forall|i: int| is_first_colon(bytes@, i) implies !(i < bytes@.len() - 1) by {
            if i < k {
                assert(bytes@[i] != COLON);
            }
            if k < i {
                assert(bytes@[k as int] == COLON);
            }
        }
        Err(AuthError::NoPassword)
    } else {
        assert(is_first_colon(bytes@, k as int) && k < bytes@.len() - 1);
        if k == 0 {
            Err(AuthError::NoUsername)
        } else {
            Ok(())
        }
    }
}

/// The pattern for the files with an extension: `*.` and the extension.
pub open spec fn pattern_of(extension: Seq<char>) -> Seq<char> {
    "*."@ + extension
}

/// The patterns of the files that are sent compressed, one for each
/// extension, in the same order.
pub fn compression_patterns(extensions: &Vec<String>) -> (patterns: Vec<String>)
    ensures
        patterns.len() == extensions.len(),
        forall|i: int|
            0 <= i < patterns.len() ==> (#[trigger] patterns[i])@ == pattern_of(extensions[i]@),
{
    let mut patterns: Vec<String> = Vec::new();
    let mut i: usize = 0;
    while i < extensions.len()
        invariant
            i <= extensions.len(),
            patterns.len() == i,
            forall|j: int|
                0 <= j < i ==> (#[trigger] patterns[j])@ == pattern_of(extensions[j]@),
        decreases extensions.len() - i,
    {
        let mut pattern = String::from_str("*.");
        pattern.append(extensions[i].as_str());
        patterns.push(pattern);
        i += 1;
    }
    patterns
}

} // verus!
