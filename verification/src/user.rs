use vstd::prelude::*;

verus! {

/// The public subset of an account's details.
pub struct UserBriefDetails {
    pub name: Option<String>,
    pub username: String,
    pub email: String,
    pub picture: Option<String>,
}

} // verus!
