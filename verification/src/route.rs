//! Routing decisions of the static-asset fallback: which request paths are
//! served the index document, which are looked up in the asset bundle, and
//! what a failed lookup falls back to. The lookup itself — the bundle and
//! its content types — is the serving layer's concern; only the decisions
//! live here.

use vstd::prelude::*;

verus! {

/// A request path with its leading slashes removed.
pub open spec fn spec_trim_slashes(s: Seq<u8>) -> Seq<u8>
    decreases s.len(),
{
    if s.len() > 0 && s[0] == 47 {
        spec_trim_slashes(s.subrange(1, s.len() as int))
    } else {
        s
    }
}

/// The bytes of the index document's name.
pub open spec fn index_name() -> Seq<u8> {
    seq![105u8, 110u8, 100u8, 101u8, 120u8, 46u8, 104u8, 116u8, 109u8, 108u8]
}

/// Trimmed paths that are served the index document directly: the empty
/// path and the index document's own name.
pub open spec fn spec_is_index_path(t: Seq<u8>) -> bool {
    t.len() == 0 || t == index_name()
}

#[derive(Clone, Copy, Debug, PartialEq, Eq, Structural)]
pub enum StaticDecision {
    /// Serve the index document.
    Index,
    /// Look the trimmed path up in the asset bundle.
    Lookup,
}

#[derive(Clone, Copy, Debug, PartialEq, Eq, Structural)]
pub enum MissDecision {
    /// Not a file-like path: fall back to the index document.
    Index,
    /// A file-like path that is not bundled: report it missing.
    NotFound,
}

/// Removes every leading slash of a request path.
pub fn trim_leading_slashes(path: &Vec<u8>) -> (r: Vec<u8>)
    ensures
        r@ == spec_trim_slashes(path@),
{
    let n = path.len();
    let mut k: usize = 0;
    proof {
        assert(path@.subrange(0, path@.len() as int) =~= path@);
    }
    while k < n && path[k] == 47
        invariant
            n == path@.len(),
            k <= n,
            spec_trim_slashes(path@) == spec_trim_slashes(
                path@.subrange(k as int, path@.len() as int),
            ),
        decreases n - k,
    {
        proof {
            let rest = path@.subrange(k as int, path@.len() as int);
            assert(rest[0] == 47);
            assert(rest.subrange(1, rest.len() as int) =~= path@.subrange(
                k + 1,
                path@.len() as int,
            ));
        }
        k += 1;
    }
    let mut out: Vec<u8> = Vec::new();
    let mut i = k;
    while i < n
        invariant
            n == path@.len(),
            k <= i <= n,
            out@ == path@.subrange(k as int, i as int),
        decreases n - i,
    {
        out.push(path[i]);
        proof {
            assert(out@ =~= path@.subrange(k as int, i + 1));
        }
        i += 1;
    }
    proof {
        let rest = path@.subrange(k as int, path@.len() as int);
        assert(out@ =~= rest);
        if k < n {
            assert(rest[0] != 47);
        }
    }
    out
}

/// Classifies a raw request path: the trimmed path, and whether it is
/// served the index document at once or looked up in the asset bundle.
pub fn classify_path(path: &Vec<u8>) -> (r: (StaticDecision, Vec<u8>))
    ensures
        r.1@ == spec_trim_slashes(path@),
        r.0 is Index <==> spec_is_index_path(spec_trim_slashes(path@)),
        r.0 is Lookup <==> !spec_is_index_path(spec_trim_slashes(path@)),
{
    let t = trim_leading_slashes(path);
    if t.len() == 0 {
        return (StaticDecision::Index, t);
    }
    let is_index = t.len() == 10 && t[0] == 105 && t[1] == 110 && t[2] == 100 && t[3] == 101
        && t[4] == 120 && t[5] == 46 && t[6] == 104 && t[7] == 116 && t[8] == 109 && t[9] == 108;
    if is_index {
        proof {
            assert(t@ =~= index_name());
        }
        (StaticDecision::Index, t)
    } else {
        (StaticDecision::Lookup, t)
    }
}

/// Decides what a failed asset lookup falls back to: paths that contain a
/// dot look like file names and are reported missing; all others are
/// client-side routes and are served the index document.
pub fn asset_miss_fallback(trimmed: &Vec<u8>) -> (r: MissDecision)
    ensures
        r is NotFound <==> trimmed@.contains(46u8),
        r is Index <==> !trimmed@.contains(46u8),
{
    let n = trimmed.len();
    let mut k: usize = 0;
    while k < n
        invariant
            n == trimmed@.len(),
            k <= n,
            forall|j: int| 0 <= j < k ==> trimmed@[j] != 46,
        decreases n - k,
    {
        if trimmed[k] == 46 {
            proof {
                assert(trimmed@[k as int] == 46u8);
            }
            return MissDecision::NotFound;
        }
        k += 1;
    }
    proof {
        if trimmed@.contains(46u8) {
            let i = choose|i: int| 0 <= i < trimmed@.len() && trimmed@[i] == 46u8;
            assert(trimmed@[i] != 46);
        }
    }
    MissDecision::Index
}

} // verus!
