//! Protection-root paths. An attribute's root lives under `attrs/` in the
//! run's root directory, a derivation's root under `drvs/`, named by the
//! derivation file's base name.

use vstd::prelude::*;

use crate::bytes::append_bytes;
use crate::bytes::subvec;

verus! {

/// The position of the last path separator in `p`, or -1 if none occurs.
pub open spec fn last_slash(p: Seq<u8>) -> int
    decreases p.len(),
{
    if p.len() == 0 {
        -1
    } else if p.last() == 47 {
        p.len() - 1
    } else {
        last_slash(p.drop_last())
    }
}

/// The base name of a path: everything after the last separator.
pub open spec fn basename_of(p: Seq<u8>) -> Seq<u8> {
    p.subrange(last_slash(p) + 1, p.len() as int)
}

pub proof fn lemma_last_slash_bounds(p: Seq<u8>)
    ensures
        -1 <= last_slash(p) < p.len(),
    decreases p.len(),
{
    if p.len() > 0 && p.last() != 47 {
        lemma_last_slash_bounds(p.drop_last());
    }
}

/// A root path: the base directory, one subdirectory, and a name.
pub open spec fn joined(base: Seq<u8>, dir: Seq<u8>, name: Seq<u8>) -> Seq<u8> {
    base + seq![47u8] + dir + seq![47u8] + name
}

/// The bytes of the attribute-roots subdirectory name, `attrs`.
pub open spec fn attrs_dir() -> Seq<u8> {
    seq![97u8, 116u8, 116u8, 114u8, 115u8]
}

/// The bytes of the derivation-roots subdirectory name, `drvs`.
pub open spec fn drvs_dir() -> Seq<u8> {
    seq![100u8, 114u8, 118u8, 115u8]
}

/// Returns the base name of a store path: the bytes after its last `/`.
pub fn file_name(p: &Vec<u8>) -> (r: Vec<u8>)
    ensures
        r@ == basename_of(p@),
{
    let mut j = p.len();
    proof {
        assert(p@.subrange(0, p@.len() as int) =~= p@);
    }
    while j > 0 && p[j - 1] != 47
        invariant
            j <= p@.len(),
            last_slash(p@) == last_slash(p@.subrange(0, j as int)),
            forall|k: int| j <= k < p@.len() ==> p@[k] != 47,
        decreases j,
    {
        proof {
            assert(p@.subrange(0, j as int).last() == p@[j - 1]);
            assert(p@.subrange(0, j as int).drop_last() =~= p@.subrange(0, j - 1));
        }
        j = j - 1;
    }
    proof {
        if j > 0 {
            assert(p@.subrange(0, j as int).last() == p@[j - 1]);
            assert(last_slash(p@) == j - 1);
        } else {
            assert(p@.subrange(0, 0) =~= Seq::<u8>::empty());
            assert(last_slash(p@) == -1);
        }
        lemma_last_slash_bounds(p@);
    }
    subvec(p, j, p.len())
}

fn join_path(base: &Vec<u8>, dir: &Vec<u8>, name: &Vec<u8>) -> (r: Vec<u8>)
    ensures
        r@ == joined(base@, dir@, name@),
{
    let mut r: Vec<u8> = Vec::new();
    append_bytes(&mut r, base);
    r.push(47);
    append_bytes(&mut r, dir);
    r.push(47);
    append_bytes(&mut r, name);
    proof {
        assert(r@ =~= joined(base@, dir@, name@));
    }
    r
}

/// The protection-root path guarding one attribute's derivation.
pub fn attr_root_path(roots: &Vec<u8>, attr: &Vec<u8>) -> (r: Vec<u8>)
    ensures
        r@ == joined(roots@, attrs_dir(), attr@),
{
    let mut dir: Vec<u8> = Vec::new();
    dir.push(97);
    dir.push(116);
    dir.push(116);
    dir.push(114);
    dir.push(115);
    proof {
        assert(dir@ =~= attrs_dir());
    }
    join_path(roots, &dir, attr)
}

/// The protection-root path guarding one derivation's realized output.
pub fn drv_root_path(roots: &Vec<u8>, drv: &Vec<u8>) -> (r: Vec<u8>)
    ensures
        r@ == joined(roots@, drvs_dir(), basename_of(drv@)),
{
    let mut dir: Vec<u8> = Vec::new();
    dir.push(100);
    dir.push(114);
    dir.push(118);
    dir.push(115);
    proof {
        assert(dir@ =~= drvs_dir());
    }
    let name = file_name(drv);
    join_path(roots, &dir, &name)
}

} // verus!
