use vstd::prelude::*;

verus! {

/// Whether the account-email pattern accepts a text: a function of the text
/// alone, named but not restated here.
pub uninterp spec fn email_pattern_match(s: Seq<char>) -> bool;

/// Relies on regex: compiling the fixed account-email pattern never fails,
/// and whether it matches depends on the text alone.
#[verifier::external_body]
fn email_regex_is_match(email: &str) -> (r: bool)
    ensures
        r == email_pattern_match(email@),
{
    let email_regex = regex::Regex::new(
        r"^([a-z0-9_+]([a-z0-9_+.]*[a-z0-9_+])?)@([a-z0-9]+([\-\.]{1}[a-z0-9]+)*\.[a-z]{2,6})",
    ).unwrap();
    email_regex.is_match(email)
}

/// Whether a submitted email address is acceptable for account creation.
pub fn check_email(email: &str) -> (r: bool)
    ensures
        r == email_pattern_match(email@),
{
    email_regex_is_match(email)
}

} // verus!
