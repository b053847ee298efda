//! Up-front validation and materializer planning.
//!
//! Validation decides, before any work, whether a run may start: every pack
//! argument must name a directory and the output path must not exist yet.
//! The copy plan turns the resolutions into the exact list of copies the
//! surrounding program performs, one per distinct path of the union.

use vstd::prelude::*;
use crate::bytes::copy_vec;
use crate::classify::Resolution;

verus! {

/// Why a run is rejected before any work begins.
pub enum ValidationError {
    /// The output path already exists; refusing it avoids overwriting parts
    /// of an existing tree.
    OutputExists,
    /// The pack argument at this position does not exist or is not a
    /// directory.
    InvalidPack { index: usize },
}

/// The validation decision for one run, from what the filesystem reports:
/// whether the output path exists, and per pack argument whether it is an
/// existing directory. The output is checked first, then the packs in
/// argument order; the first failure is reported and nothing is created.
pub fn validate_run(output_exists: bool, pack_is_dir: &Vec<bool>) -> (r: Result<
    (),
    ValidationError,
>)
    ensures
        r is Ok <==> (!output_exists && forall|x: int|
            0 <= x < pack_is_dir@.len() ==> #[trigger] pack_is_dir@[x]),
        output_exists ==> r == Err::<(), ValidationError>(ValidationError::OutputExists),
        r matches Err(e) ==> (e matches ValidationError::InvalidPack { index } ==> {
            &&& !output_exists
            &&& index < pack_is_dir@.len()
            &&& !pack_is_dir@[index as int]
            &&& forall|y: int| 0 <= y < index ==> #[trigger] pack_is_dir@[y]
        }),
{
    if output_exists {
        return Err(ValidationError::OutputExists);
    }
    let mut x: usize = 0;
    while x < pack_is_dir.len()
        invariant
            !output_exists,
            x <= pack_is_dir@.len(),
            forall|y: int| 0 <= y < x ==> #[trigger] pack_is_dir@[y],
        decreases pack_is_dir@.len() - x,
    {
        if !pack_is_dir[x] {
            return Err(ValidationError::InvalidPack { index: x });
        }
        x += 1;
    }
    Ok(())
}

/// A root directory joined to a relative path, with one separator between.
pub open spec fn joined(root: Seq<u8>, rel: Seq<u8>) -> Seq<u8> {
    root + seq![47u8] + rel
}

/// Joins a root directory and a relative path with a separator byte.
pub fn join_path(root: &Vec<u8>, rel: &Vec<u8>) -> (r: Vec<u8>)
    ensures
        r@ == joined(root@, rel@),
{
    let mut r = copy_vec(root);
    r.push(47);
    proof {
        assert(r@ =~= root@ + seq![47u8] + rel@.take(0));
    }
    let mut x: usize = 0;
    while x < rel.len()
        invariant
            x <= rel@.len(),
            r@ =~= root@ + seq![47u8] + rel@.take(x as int),
        decreases rel@.len() - x,
    {
        r.push(rel[x]);
        proof {
            assert(rel@.take(x + 1) =~= rel@.take(x as int).push(rel@[x as int]));
            assert(r@ =~= root@ + seq![47u8] + rel@.take(x + 1));
        }
        x += 1;
    }
    proof {
        assert(rel@.take(rel@.len() as int) =~= rel@);
    }
    r
}

/// One copy the materializer performs: a resolved source file and its
/// destination in the output tree.
pub struct CopyOp {
    pub src: Vec<u8>,
    pub dst: Vec<u8>,
}

/// Plans the materialization: one copy per resolution, in order, from the
/// chosen pack's copy of the path to the same relative path under the
/// output root. So the output tree ends up with exactly one file per
/// resolved path, each taken from its resolution's source pack.
pub fn copy_plan(
    resolutions: &Vec<Resolution>,
    pack_roots: &Vec<Vec<u8>>,
    output_root: &Vec<u8>,
) -> (ops: Vec<CopyOp>)
    requires
        forall|k: int|
            0 <= k < resolutions@.len() ==> (#[trigger] resolutions@[k]).pack < pack_roots@.len(),
    ensures
        ops@.len() == resolutions@.len(),
        forall|k: int|
            0 <= k < ops@.len() ==> {
                &&& (#[trigger] ops@[k]).src@ == joined(
                    pack_roots@[resolutions@[k].pack as int]@,
                    resolutions@[k].path@,
                )
                &&& ops@[k].dst@ == joined(output_root@, resolutions@[k].path@)
            },
{
    let mut ops: Vec<CopyOp> = Vec::new();
    let mut k: usize = 0;
    while k < resolutions.len()
        invariant
            k <= resolutions@.len(),
            ops@.len() == k,
            forall|y: int|
                0 <= y < resolutions@.len() ==> (#[trigger] resolutions@[y]).pack
                    < pack_roots@.len(),
            forall|y: int|
                0 <= y < k ==> {
                    &&& (#[trigger] ops@[y]).src@ == joined(
                        pack_roots@[resolutions@[y].pack as int]@,
                        resolutions@[y].path@,
                    )
                    &&& ops@[y].dst@ == joined(output_root@, resolutions@[y].path@)
                },
        decreases resolutions@.len() - k,
    {
        let res = &resolutions[k];
        let src = join_path(&pack_roots[res.pack], &res.path);
        let dst = join_path(output_root, &res.path);
        ops.push(CopyOp { src, dst });
        k += 1;
    }
    ops
}

} // verus!
