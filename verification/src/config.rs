//! What the bot is set up with.

use vstd::prelude::*;
use vstd::string::StringExecFns;

use crate::image_name;
use crate::image_name::lowercase;
use crate::text;
use crate::text::chars_of;
use crate::text::same_text;
use crate::text::split_chars;
use crate::text::text_or;
use crate::text::trim_parts;

verus! {

/// The numbers of the administrators: the parts between commas that are not blank.
pub fn admin_user_ids(setting: Option<String>) -> (r: Vec<String>)
    ensures
        text::texts(r@) == match setting {
            Some(s) => text::trimmed_parts(text::split_on(s@, ',')),
            None => Seq::<Seq<char>>::empty(),
        },
{
    match setting {
        Some(s) => trim_parts(&split_chars(chars_of(s.as_str()).as_slice(), ',')),
        None => {
            let none: Vec<String> = Vec::new();
            assert(text::texts(none@) =~= Seq::<Seq<char>>::empty());
            none
        },
    }
}

/// Whether a text in lower case switches something on.
pub fn lower_is_true(lower: &str) -> (r: bool)
    ensures
        r == (lower@ == "true"@),
{
    same_text(lower, "true")
}

/// Whether something is switched on: it is set to `true`, in whatever case.
pub fn is_enabled(setting: &Option<String>) -> (r: bool)
    ensures
        r == match *setting {
            Some(s) => image_name::lowercased(s@) == "true"@,
            None => false,
        },
        setting matches Some(s) ==> vstd::utf8::is_ascii_chars(s@) ==> image_name::lowercased(s@)
            == s@.map_values(|c: char| image_name::ascii_lower(c)),
{
    match setting {
        Some(s) => lower_is_true(lowercase(s.as_str()).as_str()),
        None => false,
    }
}

/// Who may use the web interface; an empty name counts as none.
pub fn auth_user(setting: Option<String>) -> (r: Option<String>)
    ensures
        r == match setting {
            Some(s) => if s@.len() > 0 {
                Some(s)
            } else {
                None
            },
            None => None,
        },
{
    match setting {
        Some(s) => if s.as_str().is_empty() {
            None
        } else {
            Some(s)
        },
        None => None,
    }
}

/// The files that HTTPS needs.
pub struct TlsFiles {
    pub cert_path: String,
    pub key_path: String,
}

/// The files that HTTPS needs, where it is switched on; it cannot be without them.
pub fn tls_files(enabled: bool, cert_path: Option<String>, key_path: Option<String>) -> (r: Result<
    Option<TlsFiles>,
    String,
>)
    ensures
        if !enabled {
            r matches Ok(None)
        } else {
            match (cert_path, key_path) {
                (Some(c), Some(k)) if c@.len() > 0 && k@.len() > 0 => r matches Ok(Some(files))
                    && files.cert_path == c && files.key_path == k,
                _ => r matches Err(e) && e@
                    == "[ERROR] TLS_ENABLED=true の場合、TLS_CERT_PATH と TLS_KEY_PATH が必要だよ！"@,
            }
        },
{
    if !enabled {
        return Ok(None);
    }
    match (cert_path, key_path) {
        (Some(cert_path), Some(key_path)) => {
            if !cert_path.as_str().is_empty() && !key_path.as_str().is_empty() {
                return Ok(Some(TlsFiles { cert_path, key_path }));
            }
        },
        _ => {},
    }
    Err(
        String::from_str(
            "[ERROR] TLS_ENABLED=true の場合、TLS_CERT_PATH と TLS_KEY_PATH が必要だよ！",
        ),
    )
}

/// How the web interface is reached.
pub fn protocol(tls_enabled: bool) -> (r: &'static str)
    ensures
        r@ == if tls_enabled {
            "https"@
        } else {
            "http"@
        },
{
    if tls_enabled {
        "https"
    } else {
        "http"
    }
}

/// Where exchanges are logged.
pub fn memory_log_path(setting: Option<String>) -> (r: String)
    ensures
        r@ == text::or_else(setting, "/home/shunrin824/data16_1/yachiyo/chat_logs/memory.md"@),
{
    text_or(setting, "/home/shunrin824/data16_1/yachiyo/chat_logs/memory.md")
}

/// Where images are kept.
pub fn image_save_dir(setting: Option<String>) -> (r: String)
    ensures
        r@ == text::or_else(setting, "/home/shunrin824/data16_1/yachiyo/images/"@),
{
    text_or(setting, "/home/shunrin824/data16_1/yachiyo/images/")
}

/// Where the web interface listens.
pub fn web_bind(setting: Option<String>) -> (r: String)
    ensures
        r@ == text::or_else(setting, "0.0.0.0:8080"@),
{
    text_or(setting, "0.0.0.0:8080")
}

}
