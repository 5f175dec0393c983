//! Attachments: a downloaded file turned into a base64 data URL for opencode.
use vstd::prelude::*;
use base64::Engine;
use crate::text::{copy_str, extend_str, string_of};

verus! {

/// A file attached to a prompt.
pub struct AttachedFile {
    pub mime: String,
    pub filename: String,
    pub data_url: String,
}

/// The character of a six-bit value in the standard base64 alphabet (RFC 4648):
/// `A`-`Z`, `a`-`z`, `0`-`9`, `+`, `/`.
pub open spec fn b64_char(v: int) -> char {
    if v < 26 {
        ((65 + v) as u8) as char
    } else if v < 52 {
        ((97 + v - 26) as u8) as char
    } else if v < 62 {
        ((48 + v - 52) as u8) as char
    } else if v == 62 {
        '+'
    } else {
        '/'
    }
}

/// The standard base64 encoding (RFC 4648 alphabet, with `=` padding): each group of
/// three bytes becomes four characters of six bits each; a last group of one or two
/// bytes is padded with zero bits and `=`.
pub open spec fn base64_standard(b: Seq<u8>) -> Seq<char>
    decreases b.len(),
{
    if b.len() == 0 {
        Seq::empty()
    } else if b.len() == 1 {
        seq![b64_char(b[0] as int / 4), b64_char((b[0] as int % 4) * 16), '=', '=']
    } else if b.len() == 2 {
        seq![
            b64_char(b[0] as int / 4),
            b64_char((b[0] as int % 4) * 16 + b[1] as int / 16),
            b64_char((b[1] as int % 16) * 4),
            '=',
        ]
    } else {
        seq![
            b64_char(b[0] as int / 4),
            b64_char((b[0] as int % 4) * 16 + b[1] as int / 16),
            b64_char((b[1] as int % 16) * 4 + b[2] as int / 64),
            b64_char(b[2] as int % 64),
        ] + base64_standard(b.skip(3))
    }
}

/// `base64::engine::general_purpose::STANDARD.encode`: the standard, padded base64
/// encoding of the bytes.
#[verifier::external_body]
fn base64_encode(bytes: &[u8]) -> (r: String)
    ensures
        r@ == base64_standard(bytes@),
{
    base64::engine::general_purpose::STANDARD.encode(bytes)
}

/// `data:<mime>;base64,<data>`.
pub open spec fn data_url_spec(mime: Seq<char>, b64: Seq<char>) -> Seq<char> {
    "data:"@ + mime + ";base64,"@ + b64
}

/// The data URL of base64 data of a MIME type.
pub fn data_url(mime: &str, b64: &str) -> (r: String)
    ensures
        r@ == data_url_spec(mime@, b64@),
{
    let mut out: Vec<char> = Vec::new();
    extend_str(&mut out, "data:");
    extend_str(&mut out, mime);
    extend_str(&mut out, ";base64,");
    extend_str(&mut out, b64);
    string_of(&out)
}

/// An attachment from the downloaded bytes of a file.
pub fn attach_file(mime: &str, filename: &str, bytes: &[u8]) -> (r: AttachedFile)
    ensures
        r.mime@ == mime@,
        r.filename@ == filename@,
        r.data_url@ == data_url_spec(mime@, base64_standard(bytes@)),
{
    let b64 = base64_encode(bytes);
    AttachedFile {
        mime: copy_str(mime),
        filename: copy_str(filename),
        data_url: data_url(mime, b64.as_str()),
    }
}

} // verus!
