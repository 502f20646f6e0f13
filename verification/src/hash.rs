use sha2::{Digest, Sha512};
use vstd::prelude::*;
use vstd::string::StringExecFns;

verus! {

/// The SHA-512 digest of a text: a function of the input alone, named but
/// not restated here.
pub uninterp spec fn sha512_of(s: Seq<char>) -> Seq<u8>;

/// The low-case hexadecimal digit of a value below sixteen, as an ASCII
/// byte.
pub open spec fn hex_digit(v: u8) -> u8 {
    if v < 10 {
        (v + 48) as u8
    } else {
        (v + 87) as u8
    }
}

/// The low-case hexadecimal rendering of a byte string: two digits per
/// byte, high half first.
pub open spec fn hex_bytes_of(b: Seq<u8>) -> Seq<u8> {
    Seq::new(
        b.len() * 2,
        |i: int|
            if i % 2 == 0 {
                hex_digit(b[i / 2] / 16)
            } else {
                hex_digit(b[i / 2] % 16)
            },
    )
}

/// The SHA-512 digest of a text, rendered as low-case hexadecimal.
pub open spec fn sha512_hex_of(s: Seq<char>) -> Seq<char> {
    hex_bytes_of(sha512_of(s)).map(|i: int, v: u8| v as char)
}

/// Relies on sha2's Sha512: the 64-byte digest depends on the input bytes
/// alone.
#[verifier::external_body]
fn sha512_bytes(s: &str) -> (r: Vec<u8>)
    ensures
        r@ == sha512_of(s@),
        r@.len() == 64,
{
    let mut hasher = Sha512::new();
    hasher.update(s.as_bytes());
    hasher.finalize().to_vec()
}

/// Relies on String::from_utf8: bytes below 128 are valid UTF-8 and decode
/// to the characters with those code points.
#[verifier::external_body]
pub(crate) fn ascii_to_string(bytes: Vec<u8>) -> (r: String)
    requires
        forall|i: int| 0 <= i < bytes@.len() ==> bytes@[i] < 128,
    ensures
        r@ == bytes@.map(|i: int, v: u8| v as char),
{
    String::from_utf8(bytes).unwrap_or_default()
}

/// Renders a byte string as low-case hexadecimal ASCII.
pub(crate) fn to_hex_bytes(b: &Vec<u8>) -> (r: Vec<u8>)
    ensures
        r@ == hex_bytes_of(b@),
        forall|i: int| 0 <= i < r@.len() ==> r@[i] < 128,
{
    let mut out: Vec<u8> = Vec::new();
    let mut i: usize = 0;
    while i < b.len()
        invariant
            i <= b@.len(),
            out@.len() == 2 * i,
            forall|x: int| 0 <= x < out@.len() ==> #[trigger] out@[x] == hex_bytes_of(b@)[x],
            forall|x: int| 0 <= x < out@.len() ==> #[trigger] out@[x] < 128,
        decreases b@.len() - i,
    {
        let byte = b[i];
        let hi = byte / 16;
        let lo = byte % 16;
        let hc: u8 = if hi < 10 {
            hi + 48
        } else {
            hi + 87
        };
        let lc: u8 = if lo < 10 {
            lo + 48
        } else {
            lo + 87
        };
        out.push(hc);
        out.push(lc);
        i = i + 1;
    }
    proof {
        assert(out@ =~= hex_bytes_of(b@));
    }
    out
}

/// The SHA-512 digest of the text, as a low-case hexadecimal string.
fn hash(s: &String) -> (r: String)
    ensures
        r@ == sha512_hex_of(s@),
        r@.len() == 128,
{
    let digest = sha512_bytes(s.as_str());
    let hexed = to_hex_bytes(&digest);
    let out = ascii_to_string(hexed);
    proof {
        assert(out@ =~= sha512_hex_of(s@));
    }
    out
}

/// Hashes a salted password: the SHA-512 hex digest of the salt followed by
/// the password.
pub fn hash_password(salt: &String, pass: &str) -> (r: String)
    ensures
        r@ == sha512_hex_of(salt@ + pass@),
        r@.len() == 128,
{
    let mut s = String::new();
    s.append(salt.as_str());
    s.append(pass);
    proof {
        assert(s@ =~= salt@ + pass@);
    }
    hash(&s)
}

} // verus!
