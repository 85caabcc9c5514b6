//! Emphasis on the terminal.

use crate::text::occurs_in;
use colored::Colorize;
use vstd::prelude::*;

verus! {

/// The escape sequence that switches bold on.
pub open spec fn bold_on() -> Seq<char> {
    seq!['\u{1b}', '[', '1', 'm']
}

/// The escape sequence that switches all styles off.
pub open spec fn reset() -> Seq<char> {
    seq!['\u{1b}', '[', '0', 'm']
}

/// `shown` is `plain` with or without emphasis: `plain` itself, or a text
/// that starts with the sequence that switches bold on and ends with the
/// reset sequence. Between the two stands `plain`, unless `plain` holds a
/// reset sequence itself: of what stands between them then, nothing is said.
pub open spec fn emphasis(plain: Seq<char>, shown: Seq<char>) -> bool {
    shown == plain || {
        &&& shown.len() >= bold_on().len() + reset().len()
        &&& shown.take(bold_on().len() as int) == bold_on()
        &&& shown.skip(shown.len() - reset().len()) == reset()
        &&& occurs_in(plain, reset()) || shown == bold_on() + plain + reset()
    }
}

/// `Colorize::bold` of the crate `colored` on `s`, formatted with `Display`.
/// Whether `colored` styles at all depends on the environment and on the
/// terminal, so the result is `s` itself or `s` in bold. Believed, not
/// proved: where it styles, it writes the bold sequence, the text and the
/// reset sequence, and changes the text only after a reset sequence in it.
#[verifier::external_body]
pub(crate) fn emphasized(s: &str) -> (r: String)
    ensures
        emphasis(s@, r@),
{
    s.bold().to_string()
}

} // verus!
