use vstd::prelude::*;
use crate::types::Status;

verus! {

/// Whether `c` is alphanumeric in Unicode's sense, as `char::is_alphanumeric`
/// decides it.
pub uninterp spec fn alphanumeric(c: char) -> bool;

/// The lower-case form of `s`, as `str::to_lowercase` computes it.
pub uninterp spec fn lower_of(s: Seq<char>) -> Seq<char>;

/// A character that a table name may not hold: neither alphanumeric nor `_`.
pub open spec fn replaced(c: char) -> bool {
    !(alphanumeric(c) || c == '_')
}

/// `s` with every character that `replaced` marks turned into `_`.
pub open spec fn underscored(s: Seq<char>) -> Seq<char> {
    s.map_values(|c: char| if replaced(c) { '_' } else { c })
}

/// Relies on `char::is_alphanumeric`, which depends on the character alone.
#[verifier::external_body]
fn is_alnum(c: char) -> (r: bool)
    ensures
        r == alphanumeric(c),
{
    c.is_alphanumeric()
}

/// Whether `c` must be replaced in a table name.
pub fn must_replace(c: char) -> (r: bool)
    ensures
        r == replaced(c),
{
    !(is_alnum(c) || c == '_')
}

/// Relies on `str::replace` with a character predicate as the pattern: each
/// character that matches is replaced by `"_"`, the others are kept.
#[verifier::external_body]
fn underscore_disallowed(s: &str) -> (r: String)
    ensures
        r@ == underscored(s@),
{
    s.replace(|c: char| must_replace(c), "_")
}

/// Relies on `str::to_lowercase`, which depends on the characters alone and
/// maps the empty string to the empty string.
#[verifier::external_body]
fn lowercase(s: &str) -> (r: String)
    ensures
        r@ == lower_of(s@),
        s@.len() == 0 ==> r@.len() == 0,
{
    s.to_lowercase()
}

/// A market ticker made safe for use in a table name: every character that
/// is neither alphanumeric nor `_` becomes `_`, and the result is lower case.
pub fn sanitize_ticker(ticker: &str) -> (r: String)
    ensures
        r@ == lower_of(underscored(ticker@)),
{
    let replaced_text = underscore_disallowed(ticker);
    lowercase(replaced_text.as_str())
}

/// The status that a stored text names: `Ongoing` for exactly "Ongoing",
/// `Incoming` for anything else or nothing.
pub fn string_to_status(status_str: &Option<String>) -> (r: Status)
    ensures
        r == (if status_str matches Some(s) && s@ == "Ongoing"@ {
            Status::Ongoing
        } else {
            Status::Incoming
        }),
{
    match status_str {
        Some(s) => {
            if *s == String::from_str("Ongoing") {
                Status::Ongoing
            } else {
                Status::Incoming
            }
        },
        None => Status::Incoming,
    }
}

} // verus!
