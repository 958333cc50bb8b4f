//! Derived display colours.
//!
//! Every distinct block identity renders in a deterministic colour: the
//! first three bytes of the MD5 digest of the identity's bytes become the
//! red, green and blue channels, with alpha fixed at opaque. There is no
//! colour table to maintain; equal identities always colour equally.

use vstd::prelude::*;
use crate::objects::Rgb;

verus! {

/// The 16-byte MD5 digest of a byte string, as the outside hash
/// implementation computes it; a function of the input bytes alone.
pub uninterp spec fn md5_of(data: Seq<u8>) -> Seq<u8>;

/// Relies on `md5::compute`: it returns the 16-byte MD5 digest of the
/// input, a pure function of the input bytes.
#[verifier::external_body]
fn md5_bytes(data: &[u8]) -> (r: Vec<u8>)
    ensures
        r@ == md5_of(data@),
        r@.len() == 16,
{
    md5::compute(data).0.to_vec()
}

/// The display colour derived from a block identity's bytes.
pub open spec fn color_of(name: Seq<u8>) -> Rgb {
    Rgb { r: md5_of(name)[0], g: md5_of(name)[1], b: md5_of(name)[2] }
}

/// Compute the display colour of a (non-air) block identity.
pub fn block_color(name: &[u8]) -> (c: Rgb)
    ensures
        c == color_of(name@),
{
    let digest = md5_bytes(name);
    Rgb { r: digest[0], g: digest[1], b: digest[2] }
}

} // verus!
