//! Who may use the web interface: basic authentication.

use vstd::prelude::*;
use vstd::string::StringExecFns;

use crate::text;
use crate::text::same_text;
use crate::text::strip_prefix_text;

verus! {

/// `base64::DecodeError`, why a text is no base64.
#[verifier::external_type_specification]
#[verifier::external_body]
pub struct ExDecodeError(base64::DecodeError);

/// The bytes that the standard base64 engine decodes from a text; nothing where it refuses
/// the text.
pub uninterp spec fn base64_bytes(text: Seq<char>) -> Option<Seq<u8>>;

/// Calls `general_purpose::STANDARD.decode`. What it decodes, and which texts it refuses,
/// depends on the text alone.
#[verifier::external_body]
fn decode_base64(text: &str) -> (r: Result<Vec<u8>, base64::DecodeError>)
    ensures
        match r {
            Ok(bytes) => base64_bytes(text@) == Some(bytes@),
            Err(_) => base64_bytes(text@) is None,
        },
{
    base64::Engine::decode(&base64::engine::general_purpose::STANDARD, text)
}

/// Calls `String::from_utf8`: bytes that are UTF-8 give the text that they encode, and
/// others are refused.
#[verifier::external_body]
pub(crate) fn text_from_utf8(bytes: Vec<u8>) -> (r: Option<String>)
    ensures
        match r {
            Some(s) => vstd::utf8::valid_utf8(bytes@) && s@ == vstd::utf8::decode_utf8(bytes@),
            None => !vstd::utf8::valid_utf8(bytes@),
        },
{
    String::from_utf8(bytes).ok()
}

/// What a user is expected to send: their name and the password, or no password where none
/// is set.
pub open spec fn credentials(user: Seq<char>, pass: Option<Seq<char>>) -> Seq<char> {
    user + ":"@ + match pass {
        Some(p) => p,
        None => ""@,
    }
}

/// Whether bytes are the expected name and password.
pub open spec fn are_credentials(
    user: Seq<char>,
    pass: Option<Seq<char>>,
    bytes: Option<Seq<u8>>,
) -> bool {
    match bytes {
        Some(b) => vstd::utf8::valid_utf8(b) && vstd::utf8::decode_utf8(b) == credentials(
            user,
            pass,
        ),
        None => false,
    }
}

/// The base64 text of a header that asks for basic authentication.
pub open spec fn basic_text(header: Option<Seq<char>>) -> Option<Seq<char>> {
    match header {
        Some(h) => text::after_prefix(h, "Basic "@),
        None => None,
    }
}

/// Whether a request is let through: always where no user is set, and otherwise only with
/// the name and the password.
pub open spec fn is_allowed(
    user: Option<Seq<char>>,
    pass: Option<Seq<char>>,
    header: Option<Seq<char>>,
) -> bool {
    match user {
        None => true,
        Some(u) => match basic_text(header) {
            Some(b64) => are_credentials(u, pass, base64_bytes(b64)),
            None => false,
        },
    }
}

/// Whether decoded bytes are the expected name and password.
pub fn credentials_match(user: &str, pass: &Option<String>, bytes: Option<Vec<u8>>) -> (r: bool)
    ensures
        r == are_credentials(
            user@,
            text::opt_text(*pass),
            match bytes {
                Some(b) => Some(b@),
                None => None,
            },
        ),
{
    match bytes {
        None => false,
        Some(b) => match text_from_utf8(b) {
            None => false,
            Some(sent) => {
                let mut expected = String::from_str(user);
                expected.append(":");
                match pass {
                    Some(p) => expected.append(p.as_str()),
                    None => expected.append(""),
                }
                same_text(sent.as_str(), expected.as_str())
            },
        },
    }
}

/// What a request that is not let through is answered.
pub struct Refusal {
    pub status: u16,
    /// The name and the value of the header that goes with it.
    pub header_name: String,
    pub header_value: String,
    pub body: String,
}

/// Whether a request may pass, by the header `Authorization` that it came with, if that
/// could be read as text. One that may not is answered with status 401, and told that basic
/// authentication is asked for.
pub fn basic_auth_middleware(
    auth_user: &Option<String>,
    auth_pass: &Option<String>,
    header: &Option<String>,
) -> (r: Option<Refusal>)
    ensures
        match r {
            None => is_allowed(
                text::opt_text(*auth_user),
                text::opt_text(*auth_pass),
                text::opt_text(*header),
            ),
            Some(refusal) => {
                &&& !is_allowed(
                    text::opt_text(*auth_user),
                    text::opt_text(*auth_pass),
                    text::opt_text(*header),
                )
                &&& refusal.status == 401
                &&& refusal.header_name@ == "WWW-Authenticate"@
                &&& refusal.header_value@ == "Basic realm=\"Yachiyo Chat\""@
                &&& refusal.body@ == "Unauthorized"@
            },
        },
{
    let user = match auth_user {
        None => {
            return None;
        },
        Some(user) => user,
    };
    let authorized = match header {
        None => false,
        Some(h) => match strip_prefix_text(h.as_str(), "Basic ") {
            None => false,
            Some(b64) => {
                let bytes = match decode_base64(b64.as_str()) {
                    Ok(bytes) => Some(bytes),
                    Err(_) => None,
                };
                credentials_match(user.as_str(), auth_pass, bytes)
            },
        },
    };
    if authorized {
        None
    } else {
        Some(
            Refusal {
                status: 401,
                header_name: String::from_str("WWW-Authenticate"),
                header_value: String::from_str("Basic realm=\"Yachiyo Chat\""),
                body: String::from_str("Unauthorized"),
            },
        )
    }
}

/// Where a user is set, a request without the header, or with one of another kind, is not
/// let through.
pub proof fn law_no_credentials_no_entry(
    user: Seq<char>,
    pass: Option<Seq<char>>,
    header: Option<Seq<char>>,
)
    requires
        header is None || !text::has_prefix(header->0, "Basic "@),
    ensures
        !is_allowed(Some(user), pass, header),
{
}

/// Where no user is set, every request is let through.
pub proof fn law_no_user_no_check(pass: Option<Seq<char>>, header: Option<Seq<char>>)
    ensures
        is_allowed(None, pass, header),
{
}

/// A request gets in with the name and the password in base64, and with no other ones that
/// differ from them.
pub proof fn law_only_the_credentials_enter(
    user: Seq<char>,
    pass: Option<Seq<char>>,
    b64: Seq<char>,
    sent: Seq<char>,
)
    requires
        base64_bytes(b64) == Some(vstd::utf8::encode_utf8(sent)),
    ensures
        is_allowed(Some(user), pass, Some("Basic "@ + b64)) <==> sent == credentials(user, pass),
{
    let header = "Basic "@ + b64;
    let n = "Basic "@.len() as int;
    assert(header.subrange(0, n) =~= "Basic "@);
    assert(header.skip(n) =~= b64);
    vstd::utf8::encode_utf8_valid_utf8(sent);
    vstd::utf8::encode_utf8_decode_utf8(sent);
}

/// Who gets in where a user is set: who sends, behind `Basic `, the base64 of the name, a
/// colon and the password, or nothing where no password is set.
pub proof fn law_who_gets_in(user: Seq<char>, pass: Option<Seq<char>>, header: Option<Seq<char>>)
    ensures
        is_allowed(Some(user), pass, header) <==> exists|b64: Seq<char>, bytes: Seq<u8>|
            header == Some(#[trigger] ("Basic "@ + b64)) && base64_bytes(b64) == Some(bytes)
                && vstd::utf8::valid_utf8(bytes) && #[trigger] vstd::utf8::decode_utf8(bytes)
                == user + ":"@ + (match pass {
                Some(p) => p,
                None => ""@,
            }),
{
    let expected = user + ":"@ + (match pass {
        Some(p) => p,
        None => ""@,
    });
    if is_allowed(Some(user), pass, header) {
        let h = header->0;
        text::law_text_in_text(seq![], "Basic "@, seq![], h);
        let b64 = text::after_prefix(h, "Basic "@)->0;
        let rest = choose|y: Seq<char>| h == #[trigger] ("Basic "@ + y);
        text::law_text_in_text(seq![], "Basic "@, rest, h);
        assert(h == "Basic "@ + b64);
        let bytes = base64_bytes(b64)->0;
        assert(vstd::utf8::decode_utf8(bytes) == expected);
    }
    if exists|b64: Seq<char>, bytes: Seq<u8>|
        header == Some(#[trigger] ("Basic "@ + b64)) && base64_bytes(b64) == Some(bytes)
            && vstd::utf8::valid_utf8(bytes) && #[trigger] vstd::utf8::decode_utf8(bytes)
            == expected {
        let (b64, bytes) = choose|b64: Seq<char>, bytes: Seq<u8>|
            header == Some(#[trigger] ("Basic "@ + b64)) && base64_bytes(b64) == Some(bytes)
                && vstd::utf8::valid_utf8(bytes) && #[trigger] vstd::utf8::decode_utf8(bytes)
                == expected;
        text::law_text_in_text(seq![], "Basic "@, b64, header->0);
    }
}

}
