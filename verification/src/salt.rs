use crate::hash::{ascii_to_string, hex_bytes_of, to_hex_bytes};
use rand::distributions::{Alphanumeric, DistString};
use rand::Rng;
use vstd::prelude::*;

verus! {

/// The MD5 digest of a text: a function of the input alone, named but not
/// restated here.
pub uninterp spec fn md5_of(s: Seq<char>) -> Seq<u8>;

/// The MD5 digest of a text, rendered as low-case hexadecimal.
pub open spec fn md5_hex_of(s: Seq<char>) -> Seq<char> {
    hex_bytes_of(md5_of(s)).map(|i: int, v: u8| v as char)
}

/// Relies on md5::compute: the 16-byte digest depends on the input bytes
/// alone.
#[verifier::external_body]
fn md5_bytes(s: &str) -> (r: Vec<u8>)
    ensures
        r@ == md5_of(s@),
        r@.len() == 16,
{
    md5::compute(s.as_bytes()).0.to_vec()
}

/// Relies on rand's Alphanumeric distribution: a random string of exactly
/// the requested number of (ASCII) characters; nothing is promised of its
/// contents.
#[verifier::external_body]
fn random_alphanumeric(len: usize) -> (r: String)
    ensures
        r@.len() == len,
{
    Alphanumeric.sample_string(&mut rand::thread_rng(), len)
}

/// Relies on rand's gen_range: a value below the bound; nothing is promised
/// of which one.
#[verifier::external_body]
fn random_below(bound: usize) -> (r: usize)
    requires
        bound >= 1,
    ensures
        r < bound,
{
    rand::thread_rng().gen_range(0..bound)
}

/// A random alphanumeric string of random length below one hundred.
fn gen_str() -> (r: String)
    ensures
        r@.len() < 100,
{
    let len = random_below(100);
    random_alphanumeric(len)
}

/// A fresh password salt: the MD5 hex digest of a random string, thirty-two
/// hexadecimal characters.
pub fn gen_salt() -> (r: String)
    ensures
        r@.len() == 32,
        exists|s: Seq<char>| s.len() < 100 && r@ == #[trigger] md5_hex_of(s),
{
    let s = gen_str();
    let digest = md5_bytes(s.as_str());
    let hexed = to_hex_bytes(&digest);
    let out = ascii_to_string(hexed);
    proof {
        assert(out@ =~= md5_hex_of(s@));
    }
    out
}

} // verus!
