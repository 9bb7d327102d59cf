//! The captured message body.
use vstd::prelude::*;
use vstd::utf8::*;

verus! {

/// An email body.
///
/// Bodies *should* be 7-bit ASCII, but callers may send anything. At creation the body is
/// stored as text when the bytes are valid UTF-8, so that a stored record stays readable,
/// and as raw bytes otherwise, so that nothing is lost.
#[derive(Debug, Clone, PartialEq, Eq)]
pub enum MailBody {
    /// A valid UTF-8 body.
    Utf8(String),
    /// A body that is not valid UTF-8.
    Invalid(Vec<u8>),
}

impl MailBody {
    /// The bytes that the body stands for.
    pub open spec fn bytes(&self) -> Seq<u8> {
        match self {
            MailBody::Utf8(s) => encode_utf8(s@),
            MailBody::Invalid(b) => b@,
        }
    }

    /// `self` is what `from_raw` makes of `raw`: text exactly when `raw` is valid UTF-8.
    pub open spec fn captures(&self, raw: Seq<u8>) -> bool {
        match self {
            MailBody::Utf8(s) => valid_utf8(raw) && s@ == decode_utf8(raw),
            MailBody::Invalid(b) => !valid_utf8(raw) && b@ == raw,
        }
    }

    /// Create a body from the raw input bytes.
    pub fn from_raw(raw_body: Vec<u8>) -> (r: MailBody)
        ensures
            r.captures(raw_body@),
    {
        match text_from_utf8(raw_body) {
            Ok(s) => MailBody::Utf8(s),
            Err(b) => MailBody::Invalid(b),
        }
    }

    /// The body as text: the text itself, or the raw bytes decoded with replacement
    /// characters after an `[invalid UTF-8]` marker.
    pub fn display_text(&self) -> (r: String)
        ensures
            r@ == match self {
                MailBody::Utf8(s) => s@,
                MailBody::Invalid(b) => invalid_marker() + lossy_decoding(b@),
            },
    {
        match self {
            MailBody::Utf8(s) => s.clone(),
            MailBody::Invalid(b) => {
                let mut out = String::from_str("[invalid UTF-8]");
                proof {
                    reveal_strlit("[invalid UTF-8]");
                }
                let rest = text_from_utf8_lossy(b);
                out.append(rest.as_str());
                out
            },
        }
    }
}

/// The marker put before a body that is not valid UTF-8 when it is shown as text.
pub open spec fn invalid_marker() -> Seq<char> {
    seq!['[', 'i', 'n', 'v', 'a', 'l', 'i', 'd', ' ', 'U', 'T', 'F', '-', '8', ']']
}

/// Whatever the bytes are, a body keeps them: the text variant encodes back to exactly the
/// raw input, and the raw variant holds it unchanged.
pub proof fn lemma_body_keeps_bytes(raw: Seq<u8>, body: MailBody)
    requires
        body.captures(raw),
    ensures
        body.bytes() == raw,
{
    if let MailBody::Utf8(s) = body {
        decode_utf8_encode_utf8(raw);
    }
}

/// The text that `String::from_utf8_lossy` makes of some bytes.
pub uninterp spec fn lossy_decoding(b: Seq<u8>) -> Seq<char>;

/// Relies on `String::from_utf8`: `Ok` with the decoded text exactly when the bytes are valid
/// UTF-8; otherwise the error hands back the input bytes (`FromUtf8Error::into_bytes`).
#[verifier::external_body]
fn text_from_utf8(raw: Vec<u8>) -> (r: Result<String, Vec<u8>>)
    ensures
        match r {
            Ok(s) => valid_utf8(raw@) && s@ == decode_utf8(raw@),
            Err(b) => !valid_utf8(raw@) && b@ == raw@,
        },
{
    match String::from_utf8(raw) {
        Ok(s) => Ok(s),
        Err(e) => Err(e.into_bytes()),
    }
}

/// Relies on `String::from_utf8_lossy`: the result depends on the bytes alone, and valid
/// UTF-8 is decoded unchanged.
#[verifier::external_body]
fn text_from_utf8_lossy(b: &Vec<u8>) -> (r: String)
    ensures
        r@ == lossy_decoding(b@),
        valid_utf8(b@) ==> r@ == decode_utf8(b@),
{
    String::from_utf8_lossy(b.as_slice()).into_owned()
}

} // verus!
