use vstd::prelude::*;
use vstd::slice::slice_subrange;
use vstd::string::StringSliceAdditionalSpecFns;
use crate::bytes::{push_slice, slices_eq};

verus! {

/// Whether a builder name ends in the alternate-build suffix, which routes
/// its artifacts to the alternate path prefix.
pub open spec fn is_alt_builder(builder: Seq<u8>) -> bool {
    builder.len() >= 4 && builder.subrange(builder.len() - 4, builder.len() as int)
        == "-alt".spec_bytes()
}

/// The artifact URL for one unit of work: the artifact host's build prefix,
/// the alternate segment if and only if the builder carries the alternate
/// suffix, then the commit sha and the builder's series file.
pub open spec fn fetch_url_spec(sha: Seq<u8>, builder: Seq<u8>) -> Seq<u8> {
    "https://ci-artifacts.rust-lang.org/rustc-builds".spec_bytes() + (if is_alt_builder(builder) {
        "-alt".spec_bytes()
    } else {
        Seq::<u8>::empty()
    }) + "/".spec_bytes() + sha + "/cpu-".spec_bytes() + builder + ".csv".spec_bytes()
}

/// Builds the artifact URL for `(sha, builder)`, exactly as `fetch_url_spec`
/// says.
pub fn fetch_url(sha: &Vec<u8>, builder: &Vec<u8>) -> (r: Vec<u8>)
    ensures
        r@ == fetch_url_spec(sha@, builder@),
{
    let mut url: Vec<u8> = Vec::new();
    push_slice(&mut url, "https://ci-artifacts.rust-lang.org/rustc-builds".as_bytes());
    if builder.len() >= 4 {
        let n = builder.len();
        let tail = slice_subrange(builder.as_slice(), n - 4, n);
        if slices_eq(tail, "-alt".as_bytes()) {
            push_slice(&mut url, "-alt".as_bytes());
        }
    }
    push_slice(&mut url, "/".as_bytes());
    push_slice(&mut url, sha.as_slice());
    push_slice(&mut url, "/cpu-".as_bytes());
    push_slice(&mut url, builder.as_slice());
    push_slice(&mut url, ".csv".as_bytes());
    proof {
        assert(url@ =~= fetch_url_spec(sha@, builder@));
    }
    url
}

} // verus!
