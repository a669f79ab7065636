//! Where the index file lives.

use vstd::prelude::*;

verus! {

/// The file name under the home directory, "/.csearchindex".
pub open spec fn default_suffix() -> Seq<u8> {
    seq![47u8, 46, 99, 115, 101, 97, 114, 99, 104, 105, 110, 100, 101, 120]
}

/// The index path: the explicit setting when there is one, else the default
/// file in the home directory, else the default file in the user profile.
pub open spec fn index_path(explicit: Option<Seq<u8>>, home: Option<Seq<u8>>, profile: Option<Seq<u8>>) -> Option<Seq<u8>> {
    match explicit {
        Some(p) => Some(p),
        None => match home {
            Some(h) => Some(h + default_suffix()),
            None => match profile {
                Some(u) => Some(u + default_suffix()),
                None => None,
            },
        },
    }
}

/// The bytes of an optional path.
pub open spec fn opt_bytes(v: Option<Vec<u8>>) -> Option<Seq<u8>> {
    match v {
        Some(b) => Some(b@),
        None => None,
    }
}

fn with_suffix(base: Vec<u8>) -> (r: Vec<u8>)
    ensures
        r@ == base@ + default_suffix(),
{
    let mut r = base;
    let ghost b = r@;
    r.push(47u8);
    r.push(46u8);
    r.push(99u8);
    r.push(115u8);
    r.push(101u8);
    r.push(97u8);
    r.push(114u8);
    r.push(99u8);
    r.push(104u8);
    r.push(105u8);
    r.push(110u8);
    r.push(100u8);
    r.push(101u8);
    r.push(120u8);
    assert(r@ =~= b + default_suffix());
    r
}

/// The index path from the settings at hand: the value of the variable that
/// names the index, the home directory, the user profile.
pub fn csearch_index(explicit: Option<Vec<u8>>, home: Option<Vec<u8>>, profile: Option<Vec<u8>>) -> (r: Option<Vec<u8>>)
    ensures
        opt_bytes(r) == index_path(opt_bytes(explicit), opt_bytes(home), opt_bytes(profile)),
{
    match explicit {
        Some(p) => Some(p),
        None => match home {
            Some(h) => Some(with_suffix(h)),
            None => match profile {
                Some(u) => Some(with_suffix(u)),
                None => None,
            },
        },
    }
}

} // verus!
