//! The content hasher: the git blob identifier of a file's bytes.
//!
//! The identifier is the SHA-1 digest of a length-prefixed framing of the
//! raw bytes — the ASCII header `blob <len>`, a NUL separator, then the
//! content — encoded as lower-case hex.  It matches the identifiers the
//! remote tree API reports, so local and remote entries compare directly.

use vstd::prelude::*;
use sha1::{Digest, Sha1};

verus! {

/// The ASCII digits of `n`, most significant first.
pub open spec fn decimal_digits(n: nat) -> Seq<u8>
    decreases n,
{
    if n < 10 {
        seq![(48 + n) as u8]
    } else {
        decimal_digits(n / 10).push((48 + n % 10) as u8)
    }
}

/// The framing whose digest is the content identifier: `blob `, the decimal
/// byte count, NUL, then the content.
pub open spec fn blob_frame(content: Seq<u8>) -> Seq<u8> {
    seq![98u8, 108u8, 111u8, 98u8, 32u8] + decimal_digits(content.len()) + seq![0u8] + content
}

/// The SHA-1 digest of `data`: a fixed function of the bytes alone.
pub uninterp spec fn sha1_of(data: Seq<u8>) -> Seq<u8>;

/// One hex digit, lower case.
pub open spec fn hex_digit(n: int) -> char {
    seq!['0', '1', '2', '3', '4', '5', '6', '7', '8', '9', 'a', 'b', 'c', 'd', 'e', 'f'][n]
}

/// Lower-case hex encoding: two digits per byte, high nibble first.
pub open spec fn hex_of(data: Seq<u8>) -> Seq<char> {
    Seq::new(
        2 * data.len(),
        |i: int|
            if i % 2 == 0 {
                hex_digit(data[i / 2] as int / 16)
            } else {
                hex_digit(data[i / 2] as int % 16)
            },
    )
}

/// The content identifier of a file's bytes.
pub open spec fn git_blob_id_of(content: Seq<u8>) -> Seq<char> {
    hex_of(sha1_of(blob_frame(content)))
}

/// Append the ASCII digits of `n` to `out`.
fn push_decimal_digits(out: &mut Vec<u8>, n: usize)
    ensures
        final(out)@ == old(out)@ + decimal_digits(n as nat),
    decreases n,
{
    if n < 10 {
        out.push(48 + n as u8);
        proof {
            assert(out@ =~= old(out)@ + decimal_digits(n as nat));
        }
    } else {
        push_decimal_digits(out, n / 10);
        out.push(48 + (n % 10) as u8);
        proof {
            assert(out@ =~= old(out)@ + decimal_digits(n as nat));
        }
    }
}

/// Build the length-prefixed framing of `content`.
pub fn git_blob_frame(content: &Vec<u8>) -> (r: Vec<u8>)
    ensures
        r@ == blob_frame(content@),
{
    let mut r: Vec<u8> = Vec::new();
    r.push(98);
    r.push(108);
    r.push(111);
    r.push(98);
    r.push(32);
    push_decimal_digits(&mut r, content.len());
    r.push(0);
    let mut i: usize = 0;
    let n: usize = content.len();
    while i < n
        invariant
            i <= n,
            n == content@.len(),
            r@ == seq![98u8, 108u8, 111u8, 98u8, 32u8] + decimal_digits(n as nat) + seq![0u8]
                + content@.take(i as int),
        decreases n - i,
    {
        r.push(content[i]);
        proof {
            assert(content@.take(i + 1) =~= content@.take(i as int).push(content@[i as int]));
            assert(r@ =~= seq![98u8, 108u8, 111u8, 98u8, 32u8] + decimal_digits(n as nat)
                + seq![0u8] + content@.take(i + 1));
        }
        i = i + 1;
    }
    proof {
        assert(content@.take(n as int) =~= content@);
    }
    r
}

/// Relies on `sha1::Sha1::digest`: the SHA-1 digest is a pure function of
/// the input bytes, 20 bytes long.
#[verifier::external_body]
fn sha1_digest(data: &Vec<u8>) -> (r: Vec<u8>)
    ensures
        r@ == sha1_of(data@),
        r@.len() == 20,
{
    Sha1::digest(data.as_slice()).to_vec()
}

/// Relies on `hex::encode`: lower-case hex, two digits per byte, high
/// nibble first.
#[verifier::external_body]
fn hex_encode(data: &Vec<u8>) -> (r: String)
    ensures
        r@ == hex_of(data@),
{
    hex::encode(data.as_slice())
}

/// The content identifier of a file's bytes, as the remote tree reports it.
pub fn compute_git_blob_sha(content: &Vec<u8>) -> (r: String)
    ensures
        r@ == git_blob_id_of(content@),
{
    let framed = git_blob_frame(content);
    let digest = sha1_digest(&framed);
    hex_encode(&digest)
}

} // verus!
