use vstd::prelude::*;

verus! {

/// The session-token claims: the account they belong to and the window in
/// which they are honoured.
pub struct Claims {
    pub uid: i32,
    pub username: String,
    pub exp: u64,
    pub iat: u64,
}

impl Claims {
    /// A token whose expiry precedes its issue time is never honoured.
    pub fn times_consistent(&self) -> (r: bool)
        ensures
            r == (self.exp >= self.iat),
    {
        self.exp >= self.iat
    }
}

} // verus!
