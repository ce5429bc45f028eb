//! The calls into outside crates, each behind one trusted item.

use vstd::prelude::*;
use sha2::Digest;

verus! {

/// Whether `regex::Regex::new` accepts `pattern`.
pub uninterp spec fn regex_compiles(pattern: Seq<char>) -> bool;

/// The text of capture group 1 in the first match (leftmost-first semantics of
/// the `regex` crate) of `pattern` in `text`; `None` when there is no match or
/// the group did not take part in it.
pub uninterp spec fn regex_group_one(pattern: Seq<char>, text: Seq<char>) -> Option<Seq<char>>;

/// SHA-256 of `data`.
pub uninterp spec fn sha256(data: Seq<u8>) -> Seq<u8>;

/// The compact JSON text that `serde_json` writes for an optional list of
/// strings (`null`, or an array of strings).
pub uninterp spec fn json_of_args(args: Option<Seq<Seq<char>>>) -> Seq<char>;

/// The views of an optional list of strings.
pub open spec fn opt_views(o: Option<Vec<String>>) -> Option<Seq<Seq<char>>> {
    match o {
        Some(v) => Some(crate::text::views(v@)),
        None => None,
    }
}

/// The characters of an optional string.
pub open spec fn opt_view(o: Option<String>) -> Option<Seq<char>> {
    match o {
        Some(s) => Some(s@),
        None => None,
    }
}

/// Calls `regex::Regex::new(pattern)` and reports whether it succeeded.
/// The contract claims only that the answer is a function of the pattern.
#[verifier::external_body]
pub(crate) fn regex_is_valid(pattern: &str) -> (r: bool)
    ensures
        r == regex_compiles(pattern@),
{
    regex::Regex::new(pattern).is_ok()
}

/// Compiles `pattern` with `regex::Regex::new` (which succeeds by the
/// `requires`), calls `Regex::captures` on `text` and returns the text of
/// group 1 (`Captures::get(1)`, `Match::as_str`). The contract claims that
/// the result is a function of the pattern and the text, nothing about which.
#[verifier::external_body]
pub(crate) fn regex_first_group(pattern: &str, text: &str) -> (r: Option<String>)
    requires
        regex_compiles(pattern@),
    ensures
        opt_view(r) == regex_group_one(pattern@, text@),
{
    let re = regex::Regex::new(pattern).unwrap();
    match re.captures(text) {
        Some(caps) => match caps.get(1) {
            Some(m) => Some(m.as_str().to_string()),
            None => None,
        },
        None => None,
    }
}

/// Draws a number with `fastrand::u128(..)`. Nothing is claimed of it: any
/// `u128` may come back, a different one on each call.
#[verifier::external_body]
pub(crate) fn random_u128() -> (r: u128) {
    fastrand::u128(..)
}

/// `sha2::Sha256::digest(data)`, as a vector. The contract claims that the
/// digest is a function of the data and has 32 bytes (the output size of
/// SHA-256).
#[verifier::external_body]
pub(crate) fn sha256_digest(data: &[u8]) -> (r: Vec<u8>)
    ensures
        r@ == sha256(data@),
        r@.len() == 32,
{
    sha2::Sha256::digest(data).to_vec()
}


/// `serde_json::to_string(args)`, which writes `null` for `None` and a JSON
/// array of strings for `Some`. Its documented failures (a `Serialize` impl
/// that fails, a map with non-string keys) cannot arise for this type. The
/// contract claims that the text is a function of the list.
#[verifier::external_body]
pub(crate) fn json_text(args: &Option<Vec<String>>) -> (r: String)
    ensures
        r@ == json_of_args(opt_views(*args)),
{
    serde_json::to_string(args).unwrap()
}

} // verus!
