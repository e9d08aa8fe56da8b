//! The `Cache-Control` policy for everything the server answers:
//! fingerprinted `/assets/` files are immutable, API answers are never
//! stored, and everything else (HTML and other entry files) is revalidated so
//! that a new build is discovered without clearing the browser cache.
use vstd::prelude::*;
use vstd::string::StringSliceAdditionalSpecFns;

verus! {

/// `"/assets/"` as bytes.
pub open spec fn assets_prefix() -> Seq<u8> {
    seq![47u8, 97, 115, 115, 101, 116, 115, 47]
}

/// `"/api/"` as bytes.
pub open spec fn api_prefix() -> Seq<u8> {
    seq![47u8, 97, 112, 105, 47]
}

pub open spec fn has_prefix(b: Seq<u8>, prefix: Seq<u8>) -> bool {
    prefix.len() <= b.len() && b.take(prefix.len() as int) == prefix
}

fn starts_with_bytes(b: &[u8], prefix: &[u8]) -> (r: bool)
    ensures
        r == has_prefix(b@, prefix@),
{
    if prefix.len() > b.len() {
        return false;
    }
    let mut i: usize = 0;
    while i < prefix.len()
        invariant
            prefix@.len() <= b@.len(),
            i <= prefix@.len(),
            forall|j: int| 0 <= j < i ==> b@[j] == prefix@[j],
        decreases prefix@.len() - i,
    {
        if b[i] != prefix[i] {
            assert(b@.take(prefix@.len() as int)[i as int] != prefix@[i as int]);
            return false;
        }
        i = i + 1;
    }
    assert(b@.take(prefix@.len() as int) =~= prefix@);
    true
}

/// The `Cache-Control` value for a request path.
pub fn cache_control(path: &str) -> (v: &'static str)
    ensures
        v@ == if has_prefix(path.spec_bytes(), assets_prefix()) {
            "public, max-age=31536000, immutable"@
        } else if has_prefix(path.spec_bytes(), api_prefix()) {
            "no-store"@
        } else {
            "no-cache"@
        },
{
    let assets: [u8; 8] = [47u8, 97, 115, 115, 101, 116, 115, 47];
    let api: [u8; 5] = [47u8, 97, 112, 105, 47];
    assert(assets@ =~= assets_prefix());
    assert(api@ =~= api_prefix());
    let b = path.as_bytes();
    if starts_with_bytes(b, &assets) {
        "public, max-age=31536000, immutable"
    } else if starts_with_bytes(b, &api) {
        "no-store"
    } else {
        "no-cache"
    }
}

} // verus!
