//! The conflict classifier and its outcome types.
//!
//! For a path owned by one pack, that pack is the source and no digest is
//! looked at. For a path owned by two or more packs, the digests of the
//! path's copy in each owning pack decide: all equal means the path is not a
//! conflict and the lowest-indexed owning pack is the source; any two
//! different means a conflict, carrying every owning pack with its digest in
//! pack order, ready to be presented for a choice.

use vstd::prelude::*;
use crate::bytes::{bytes_eq, copy_vec};
use crate::index::FileEntry;

verus! {

/// One owning pack of a conflicting path, with the digest of its copy.
pub struct PackDigest {
    pub pack: usize,
    pub digest: Vec<u8>,
}

/// A path whose owning packs hold divergent content: every owning pack and
/// its digest, in pack order, for presentation and choice.
pub struct Conflict {
    pub path: Vec<u8>,
    pub entries: Vec<PackDigest>,
}

/// The final decision for one path: which pack's copy is authoritative.
pub struct Resolution {
    pub path: Vec<u8>,
    pub pack: usize,
}

/// All digests of the sequence agree, byte for byte.
pub open spec fn all_digests_equal(ds: Seq<Seq<u8>>) -> bool {
    forall|a: int, b: int| 0 <= a < ds.len() && 0 <= b < ds.len() ==> ds[a] == ds[b]
}

/// A path is a conflict exactly when at least two packs own it and their
/// digests do not all agree.
pub open spec fn is_conflict(owners: Seq<usize>, digests: Seq<Seq<u8>>) -> bool {
    owners.len() >= 2 && !all_digests_equal(digests)
}

/// The status is the right classification of the entry, given the digests
/// of the entry's path in its owning packs: a resolution sourced from the
/// lowest-indexed owner exactly when the digests raise no conflict, else the
/// conflict carrying every owning pack with its digest, in pack order.
pub open spec fn classified(
    status: Result<Resolution, Conflict>,
    entry: FileEntry,
    digests: Seq<Seq<u8>>,
) -> bool {
    &&& status is Ok <==> !is_conflict(entry.owners@, digests)
    &&& status matches Ok(res) ==> res.path@ == entry.path@ && res.pack == entry.owners@[0]
    &&& status matches Err(c) ==> {
        &&& c.path@ == entry.path@
        &&& c.entries@.len() == entry.owners@.len()
        &&& forall|x: int|
            0 <= x < c.entries@.len() ==> (#[trigger] c.entries@[x]).pack == entry.owners@[x]
                && c.entries@[x].digest@ == digests[x]
    }
}

/// Classifies one union entry, given the digest of the path's copy in each
/// owning pack (`digests[x]` from pack `entry.owners[x]`; not consulted when
/// a single pack owns the path). Not a conflict: the result is the immediate
/// resolution, whose source is the lowest-indexed owning pack. A conflict:
/// the result carries every owning pack with its digest, in pack order.
pub fn classify_entry(entry: &FileEntry, digests: &Vec<Vec<u8>>) -> (r: Result<
    Resolution,
    Conflict,
>)
    requires
        entry.owners@.len() >= 1,
        entry.owners@.len() >= 2 ==> digests@.len() == entry.owners@.len(),
    ensures
        classified(r, *entry, digests.deep_view()),
{
    let ghost dv = digests.deep_view();
    if entry.owners.len() < 2 {
        return Ok(Resolution { path: copy_vec(&entry.path), pack: entry.owners[0] });
    }
    let mut equal = true;
    let mut x: usize = 1;
    while x < digests.len()
        invariant
            1 <= x <= digests@.len(),
            digests@.len() >= 1,
            dv == digests.deep_view(),
            equal <==> (forall|y: int| 0 <= y < x ==> #[trigger] dv[y] == dv[0]),
        decreases digests@.len() - x,
    {
        proof {
            assert(dv[x as int] =~= digests@[x as int]@);
            assert(dv[0] =~= digests@[0]@);
        }
        if !bytes_eq(&digests[x], &digests[0]) {
            equal = false;
        }
        x += 1;
    }
    if equal {
        proof {
            assert forall|a: int, b: int|
                0 <= a < dv.len() && 0 <= b < dv.len() implies dv[a] == dv[b] by {
                assert(dv[a] == dv[0]);
                assert(dv[b] == dv[0]);
            }
        }
        return Ok(Resolution { path: copy_vec(&entry.path), pack: entry.owners[0] });
    }
    let mut list: Vec<PackDigest> = Vec::new();
    let mut x2: usize = 0;
    while x2 < digests.len()
        invariant
            x2 <= digests@.len(),
            digests@.len() == entry.owners@.len(),
            dv == digests.deep_view(),
            list@.len() == x2,
            forall|y: int|
                0 <= y < x2 ==> (#[trigger] list@[y]).pack == entry.owners@[y] && list@[y].digest@
                    == dv[y],
        decreases digests@.len() - x2,
    {
        list.push(PackDigest { pack: entry.owners[x2], digest: copy_vec(&digests[x2]) });
        proof {
            assert(dv[x2 as int] =~= digests@[x2 as int]@);
        }
        x2 += 1;
    }
    proof {
        let w = choose|y: int| 0 <= y < digests@.len() && #[trigger] dv[y] != dv[0];
        assert(!all_digests_equal(dv));
    }
    Err(Conflict { path: copy_vec(&entry.path), entries: list })
}

/// Classifies every union entry: `statuses[k]` is the outcome for
/// `entries[k]`, with `digests[k]` the digests of its path in each of its
/// owning packs (empty when one pack owns it). Each path of the union gets
/// exactly one outcome, in entry order: classification is a pure phase, and
/// all prompting happens afterwards on the conflicts alone.
pub fn classify_all(entries: &Vec<FileEntry>, digests: &Vec<Vec<Vec<u8>>>) -> (statuses: Vec<
    Result<Resolution, Conflict>,
>)
    requires
        digests@.len() == entries@.len(),
        forall|k: int| 0 <= k < entries@.len() ==> (#[trigger] entries@[k]).owners@.len() >= 1,
        forall|k: int|
            0 <= k < entries@.len() ==> ((#[trigger] entries@[k]).owners@.len() >= 2
                ==> digests@[k]@.len() == entries@[k].owners@.len()),
    ensures
        statuses@.len() == entries@.len(),
        forall|k: int|
            0 <= k < entries@.len() ==> classified(
                #[trigger] statuses@[k],
                entries@[k],
                digests@[k].deep_view(),
            ),
{
    let mut statuses: Vec<Result<Resolution, Conflict>> = Vec::new();
    let mut k: usize = 0;
    while k < entries.len()
        invariant
            k <= entries@.len(),
            digests@.len() == entries@.len(),
            forall|y: int| 0 <= y < entries@.len() ==> (#[trigger] entries@[y]).owners@.len() >= 1,
            forall|y: int|
                0 <= y < entries@.len() ==> ((#[trigger] entries@[y]).owners@.len() >= 2
                    ==> digests@[y]@.len() == entries@[y].owners@.len()),
            statuses@.len() == k,
            forall|y: int|
                0 <= y < k ==> classified(
                    #[trigger] statuses@[y],
                    entries@[y],
                    digests@[y].deep_view(),
                ),
        decreases entries@.len() - k,
    {
        let status = classify_entry(&entries[k], &digests[k]);
        statuses.push(status);
        k += 1;
    }
    statuses
}

/// The immediate resolutions among the outcomes, in entry order.
pub open spec fn ok_resolutions(statuses: Seq<Result<Resolution, Conflict>>) -> Seq<Resolution>
    decreases statuses.len(),
{
    if statuses.len() == 0 {
        Seq::empty()
    } else {
        let rest = ok_resolutions(statuses.drop_last());
        match statuses.last() {
            Ok(res) => rest.push(res),
            Err(_) => rest,
        }
    }
}

/// The conflicts among the outcomes that still await a choice, in entry
/// order.
pub open spec fn pending_conflicts(statuses: Seq<Result<Resolution, Conflict>>) -> Seq<Conflict>
    decreases statuses.len(),
{
    if statuses.len() == 0 {
        Seq::empty()
    } else {
        let rest = pending_conflicts(statuses.drop_last());
        match statuses.last() {
            Ok(_) => rest,
            Err(c) => rest.push(c),
        }
    }
}

/// Splits the classification outcomes at the phase boundary: the immediate
/// resolutions, and the pending conflicts for the strictly sequential
/// resolution phase to consume, each list in entry order. Every outcome
/// lands in exactly one of the two.
pub fn split_statuses(statuses: Vec<Result<Resolution, Conflict>>) -> (r: (
    Vec<Resolution>,
    Vec<Conflict>,
))
    ensures
        r.0@ == ok_resolutions(statuses@),
        r.1@ == pending_conflicts(statuses@),
{
    let ghost orig = statuses@;
    let mut rest = statuses;
    let mut resolutions: Vec<Resolution> = Vec::new();
    let mut conflicts: Vec<Conflict> = Vec::new();
    while rest.len() > 0
        invariant
            rest@.len() <= orig.len(),
            rest@ =~= orig.skip(orig.len() - rest@.len()),
            resolutions@ == ok_resolutions(orig.take(orig.len() - rest@.len())),
            conflicts@ == pending_conflicts(orig.take(orig.len() - rest@.len())),
        decreases rest@.len(),
    {
        let ghost k = orig.len() - rest@.len();
        proof {
            assert(rest@[0] == orig[k as int]);
            assert(orig.take(k as int + 1).drop_last() =~= orig.take(k as int));
            assert(orig.take(k as int + 1).last() == orig[k as int]);
        }
        let status = rest.remove(0);
        match status {
            Ok(res) => resolutions.push(res),
            Err(c) => conflicts.push(c),
        }
        proof {
            assert(rest@ =~= orig.skip(orig.len() - rest@.len()));
        }
    }
    proof {
        assert(orig.take(orig.len() as int) =~= orig);
    }
    (resolutions, conflicts)
}

} // verus!
