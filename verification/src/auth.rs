//! Optional login protection with HTTP Basic authentication.

use vstd::prelude::*;
use vstd::utf8::encode_utf8;

verus! {

/// The `WWW-Authenticate` challenge sent with a refused request.
pub const LOGIN_CHALLENGE: &'static str = "Basic realm=\"tree\"";

/// What `STANDARD.encode` of the base64 crate gives for `bytes`.
pub uninterp spec fn base64_standard(bytes: Seq<u8>) -> Seq<char>;

/// Calls `Engine::encode` on the base64 crate's `STANDARD` engine (alphabet
/// `A-Z a-z 0-9 + /`, padded with `=`). Stated: the text depends on the
/// bytes alone and has `4 * ceil(n/3)` characters for `n` bytes; the mapping
/// of bits to characters is not written out. The bound on the length keeps
/// the crate's length computation, which panics on overflow, from
/// overflowing.
#[verifier::external_body]
fn encode_base64_standard(bytes: &[u8]) -> (s: String)
    requires
        bytes@.len() <= usize::MAX / 2,
    ensures
        s@ == base64_standard(bytes@),
        s@.len() == 4 * ((bytes@.len() + 2) / 3),
{
    base64::Engine::encode(&base64::engine::general_purpose::STANDARD, bytes)
}

/// The credentials as Basic authentication carries them: `user:pass`.
pub open spec fn credentials(user: Seq<char>, pass: Seq<char>) -> Seq<char> {
    user + seq![':'] + pass
}

/// The `Authorization` header value that the credentials give: `Basic `
/// and the standard base64 of the UTF-8 bytes of `user:pass`.
pub open spec fn expected_authorization(user: Seq<char>, pass: Seq<char>) -> Seq<char> {
    "Basic "@ + base64_standard(encode_utf8(credentials(user, pass)))
}

/// Whether a request may go on. Without a password there is no protection;
/// with one, the request's `Authorization` header must be exactly the Basic
/// credentials of `user` and the password. Credentials too long to encode
/// (more than half the address space) are never matched.
pub open spec fn spec_authorized(
    header: Option<Seq<char>>,
    user: Seq<char>,
    pass: Option<Seq<char>>,
) -> bool {
    match pass {
        None => true,
        Some(p) => {
            &&& encode_utf8(credentials(user, p)).len() <= usize::MAX / 2
            &&& header == Some(expected_authorization(user, p))
        },
    }
}

/// Whether a request with the `Authorization` header `header` may go on
/// (see `spec_authorized`).
pub fn authorized(header: Option<&str>, user: &str, pass: Option<&str>) -> (ok: bool)
    ensures
        ok == spec_authorized(
            match header {
                Some(h) => Some(h@),
                None => None,
            },
            user@,
            match pass {
                Some(p) => Some(p@),
                None => None,
            },
        ),
{
    let p = match pass {
        None => return true,
        Some(p) => p,
    };
    let mut creds = String::new();
    creds.append(user);
    creds.push(':');
    creds.append(p);
    assert(creds@ =~= credentials(user@, p@));
    let bytes = creds.as_str().as_bytes();
    if bytes.len() > usize::MAX / 2 {
        return false;
    }
    let encoded = encode_base64_standard(bytes);
    let mut expected = String::new();
    expected.append("Basic ");
    expected.append(encoded.as_str());
    assert(expected@ =~= expected_authorization(user@, p@));
    match header {
        None => false,
        Some(h) => {
            let given = h.to_owned();
            given == expected
        },
    }
}

/// The right login is let in: when a password is set, the header that a
/// browser sends for the configured user and the whole password (`Basic `
/// and the standard base64 of the UTF-8 bytes of `user:password`) is
/// accepted, whatever the user and the password are (up to the length that
/// can be encoded). Without a password every request is let in, and with
/// one a request without a header is refused.
pub proof fn law_right_login_is_let_in(user: Seq<char>, pass: Seq<char>, header: Option<Seq<char>>)
    requires
        encode_utf8(user + seq![':'] + pass).len() <= usize::MAX / 2,
    ensures
        spec_authorized(
            Some("Basic "@ + base64_standard(encode_utf8(user + seq![':'] + pass))),
            user,
            Some(pass),
        ),
        spec_authorized(header, user, None),
        !spec_authorized(None, user, Some(pass)),
{
}

} // verus!
