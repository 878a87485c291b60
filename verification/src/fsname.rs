//! Names of files whose paths came from the XML. rekordbox writes every
//! `Location` in NFC; macOS lists names in NFD, and on some volumes only
//! the stored form removes a file.
use vstd::prelude::*;
use vstd::utf8::is_ascii_chars;
use unicode_normalization::UnicodeNormalization;

verus! {

/// The NFC form of `s`, as `unicode_normalization` computes it.
pub uninterp spec fn nfc_form(s: Seq<char>) -> Seq<char>;

/// The NFD form of `s`, as `unicode_normalization` computes it.
pub uninterp spec fn nfd_form(s: Seq<char>) -> Seq<char>;

/// `UnicodeNormalization::nfc` on `s`, collected.
#[verifier::external_body]
fn to_nfc(s: &str) -> (r: String)
    ensures
        r@ == nfc_form(s@),
{
    s.nfc().collect()
}

/// `UnicodeNormalization::nfd` on `s`, collected.
#[verifier::external_body]
fn to_nfd(s: &str) -> (r: String)
    ensures
        r@ == nfd_form(s@),
{
    s.nfd().collect()
}

/// `path` in NFC, the form rekordbox writes paths in. ASCII paths are
/// left as they are.
pub open spec fn spec_nfc(path: Seq<char>) -> Seq<char> {
    if is_ascii_chars(path) { path } else { nfc_form(path) }
}

/// `path` in the form the OS names files in: NFD on macOS, unchanged
/// elsewhere.
pub open spec fn spec_native(path: Seq<char>, macos: bool) -> Seq<char> {
    if macos && !is_ascii_chars(path) { nfd_form(path) } else { path }
}

/// `path` in NFC.
pub fn nfc(path: &str) -> (r: String)
    ensures
        r@ == spec_nfc(path@),
{
    if path.is_ascii() {
        path.to_owned()
    } else {
        to_nfc(path)
    }
}

/// `path` in the form the OS names files in; `macos` says which OS runs.
pub fn native(path: &str, macos: bool) -> (r: String)
    ensures
        r@ == spec_native(path@, macos),
{
    if macos && !path.is_ascii() {
        to_nfd(path)
    } else {
        path.to_owned()
    }
}

/// After removing `path` failed: the NFC name to try instead. Only on
/// macOS and only after "not found" (elsewhere two forms are two files),
/// and only when the NFC name differs.
pub fn nfc_retry(path: &str, macos: bool, not_found: bool) -> (r: Option<String>)
    ensures
        r is Some <==> macos && not_found && spec_nfc(path@) != path@,
        r matches Some(alt) ==> alt@ == spec_nfc(path@),
{
    if !(macos && not_found) {
        return None;
    }
    let alt = nfc(path);
    if crate::text::str_eq(alt.as_str(), path) {
        None
    } else {
        Some(alt)
    }
}

}
