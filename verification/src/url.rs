//! Where a file is fetched from.
//!
//! The address of a file holds the first digits of the MD5 digest of its
//! name, in lowercase hexadecimal, and the name itself, percent-encoded.

use vstd::prelude::*;
use vstd::string::*;
use vstd::utf8::*;

verus! {

/// What every address starts with.
pub const URL_PREFIX: &'static str = "https://upload.wikimedia.org/wikipedia/commons/";

/// The MD5 digest of `data`.
pub uninterp spec fn md5_digest(data: Seq<u8>) -> Seq<u8>;

/// The digit for a value below sixteen, with lowercase letters.
pub open spec fn lower_hex_digit(value: u8) -> char {
    if value < 10 {
        (48 + value) as char
    } else {
        (87 + value) as char
    }
}

/// The digit for a value below sixteen, with uppercase letters.
pub open spec fn upper_hex_digit(value: u8) -> char {
    if value < 10 {
        (48 + value) as char
    } else {
        (55 + value) as char
    }
}

/// The bytes in lowercase hexadecimal, two digits for each.
pub open spec fn lower_hex(bytes: Seq<u8>) -> Seq<char>
    decreases bytes.len(),
{
    if bytes.len() == 0 {
        Seq::empty()
    } else {
        lower_hex(bytes.drop_last()).push(lower_hex_digit(bytes.last() / 16)).push(
            lower_hex_digit(bytes.last() % 16),
        )
    }
}

/// Whether a byte is written as an escape in the path of an address: the
/// control characters, everything beyond the printable ASCII characters,
/// the space and `"`, `#`, `<`, `>`, `` ` ``, `?`, `{`, `}`.
pub open spec fn is_escaped(byte: u8) -> bool {
    ||| byte < 0x20
    ||| byte > 0x7e
    ||| byte == 0x20
    ||| byte == 0x22
    ||| byte == 0x23
    ||| byte == 0x3c
    ||| byte == 0x3e
    ||| byte == 0x60
    ||| byte == 0x3f
    ||| byte == 0x7b
    ||| byte == 0x7d
}

/// The bytes percent-encoded for the path of an address: an escaped byte
/// becomes `%` and its two hexadecimal digits, with uppercase letters; any
/// other byte stands for itself.
pub open spec fn percent_encoded(bytes: Seq<u8>) -> Seq<char>
    decreases bytes.len(),
{
    if bytes.len() == 0 {
        Seq::empty()
    } else if is_escaped(bytes.last()) {
        percent_encoded(bytes.drop_last()).push('%').push(
            upper_hex_digit(bytes.last() / 16),
        ).push(upper_hex_digit(bytes.last() % 16))
    } else {
        percent_encoded(bytes.drop_last()).push(bytes.last() as char)
    }
}

/// The address of the file `name` whose name has the digest `digest`: the
/// prefix, the first digit of the digest in lowercase hexadecimal, its first
/// two digits, and the name, percent-encoded, with `/` between them.
pub open spec fn url_with_digest(digest: Seq<u8>, name: Seq<char>) -> Seq<char> {
    URL_PREFIX@ + lower_hex(digest).take(1) + seq!['/'] + lower_hex(digest).take(2) + seq!['/']
        + percent_encoded(encode_utf8(name))
}

/// The address of the file `name`.
pub open spec fn medium_url(name: Seq<char>) -> Seq<char> {
    url_with_digest(md5_digest(encode_utf8(name)), name)
}

/// Calls `md5::compute`. The digest it returns goes by the name
/// [`md5_digest`]; it has sixteen bytes, as its type says.
#[verifier::external_body]
fn md5_compute(data: &[u8]) -> (digest: [u8; 16])
    ensures
        digest@ == md5_digest(data@),
{
    md5::compute(data).0
}

/// Formats a digest with `md5::Digest`'s `LowerHex`, which writes each of
/// the sixteen bytes as two lowercase hexadecimal digits.
#[verifier::external_body]
fn digest_lower_hex(digest: [u8; 16]) -> (hex: String)
    ensures
        hex@ == lower_hex(digest@),
{
    format!("{:x}", md5::Digest(digest))
}

/// Calls `percent_encoding::utf8_percent_encode` with `DEFAULT_ENCODE_SET`
/// and collects what it yields. Each byte of the name's UTF-8 encoding that
/// is in that set comes out as `%` and two uppercase hexadecimal digits, each
/// other byte as it is.
#[verifier::external_body]
fn percent_encode_path(name: &str) -> (encoded: String)
    ensures
        encoded@ == percent_encoded(name.spec_bytes()),
{
    percent_encoding::utf8_percent_encode(name, percent_encoding::DEFAULT_ENCODE_SET).to_string()
}

/// Hexadecimal takes two digits for each byte.
pub proof fn lemma_lower_hex_len(bytes: Seq<u8>)
    ensures
        lower_hex(bytes).len() == 2 * bytes.len(),
    decreases bytes.len(),
{
    if bytes.len() > 0 {
        lemma_lower_hex_len(bytes.drop_last());
    }
}

/// The address of the file `name`, given the MD5 digest of the name.
pub fn url_from_digest(digest: [u8; 16], name: &str) -> (url: String)
    ensures
        url@ == url_with_digest(digest@, name@),
{
    let hash_hex = digest_lower_hex(digest);
    proof {
        lemma_lower_hex_len(digest@);
        reveal_strlit("/");
        assert("/"@ =~= seq!['/']);
    }
    let name_percent_encoded = percent_encode_path(name);
    let mut url = String::from_str(URL_PREFIX);
    url.append(hash_hex.as_str().substring_char(0, 1));
    url.append("/");
    url.append(hash_hex.as_str().substring_char(0, 2));
    url.append("/");
    url.append(name_percent_encoded.as_str());
    url
}

/// The address from which the file `name` is fetched. The digest in it is
/// that of the name's UTF-8 encoding; it has sixteen bytes, so the two
/// segments that come from it have one digit and two.
pub fn get_medium_url(name: &str) -> (url: String)
    ensures
        url@ == medium_url(name@),
        md5_digest(encode_utf8(name@)).len() == 16,
{
    let hash = md5_compute(name.as_bytes());
    url_from_digest(hash, name)
}

} // verus!
