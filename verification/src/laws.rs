//! Laws of the merge: what the union index and the classification policy
//! guarantee together, stated over the specs the contracts use.

use vstd::prelude::*;
use crate::classify::{
    all_digests_equal, classified, is_conflict, ok_resolutions, pending_conflicts, Conflict,
    Resolution,
};
use crate::index::{entry_ok, pack_owns, strictly_increasing, FileEntry};

verus! {

/// A classification outcome never steps outside the owning packs: an
/// immediate resolution's source owns the path, and a conflict enumerates
/// only packs that own it — so whichever option is later chosen, the chosen
/// source owns the path too.
pub proof fn lemma_sources_own_the_path(
    listings: Seq<Seq<Seq<u8>>>,
    e: FileEntry,
    digests: Seq<Seq<u8>>,
    status: Result<Resolution, Conflict>,
)
    requires
        entry_ok(listings, e),
        classified(status, e, digests),
    ensures
        status matches Ok(res) ==> pack_owns(listings, res.pack as int, res.path@),
        status matches Err(c) ==> forall|x: int|
            0 <= x < c.entries@.len() ==> pack_owns(
                listings,
                (#[trigger] c.entries@[x]).pack as int,
                c.path@,
            ),
{
    match status {
        Ok(res) => {
            assert(pack_owns(listings, e.owners@[0] as int, e.path@));
        },
        Err(c) => {
            assert forall|x: int| 0 <= x < c.entries@.len() implies pack_owns(
                listings,
                (#[trigger] c.entries@[x]).pack as int,
                c.path@,
            ) by {
                assert(pack_owns(listings, e.owners@[x] as int, e.path@));
            }
        },
    }
}

/// The phase boundary loses nothing: splitting the outcomes parts every one
/// of them into exactly one of the two lists, so with one resolution later
/// chosen per pending conflict, the union's paths get one resolution each —
/// no duplicates, no omissions.
pub proof fn lemma_split_partitions(statuses: Seq<Result<Resolution, Conflict>>)
    ensures
        ok_resolutions(statuses).len() + pending_conflicts(statuses).len() == statuses.len(),
    decreases statuses.len(),
{
    if statuses.len() > 0 {
        lemma_split_partitions(statuses.drop_last());
    }
}

/// For a path whose owning packs' digests all agree, classification never
/// raises a conflict, and the immediate resolution's source is the lowest
/// owning pack: the first owner owns the path and no owner is smaller.
pub proof fn lemma_agreement_resolves_lowest(
    listings: Seq<Seq<Seq<u8>>>,
    e: FileEntry,
    digests: Seq<Seq<u8>>,
)
    requires
        entry_ok(listings, e),
        all_digests_equal(digests),
    ensures
        !is_conflict(e.owners@, digests),
        pack_owns(listings, e.owners@[0] as int, e.path@),
        forall|x: int| 0 <= x < e.owners@.len() ==> e.owners@[0] <= #[trigger] e.owners@[x],
{
    assert forall|x: int| 0 <= x < e.owners@.len() implies e.owners@[0] <= #[trigger] e
        .owners@[x] by {
        if x > 0 {
            assert(e.owners@[0] < e.owners@[x]);
        }
    }
}

/// A path that exactly one pack holds gets that pack as its single owner,
/// so it is never a conflict, and its content comes from that pack alone.
pub proof fn lemma_unique_path_single_owner(
    listings: Seq<Seq<Seq<u8>>>,
    e: FileEntry,
    i: int,
    digests: Seq<Seq<u8>>,
)
    requires
        entry_ok(listings, e),
        pack_owns(listings, i, e.path@),
        forall|pk: int| pack_owns(listings, pk, e.path@) ==> pk == i,
    ensures
        e.owners@ == seq![i as usize],
        !is_conflict(e.owners@, digests),
{
    assert(e.owners@.contains(i as usize));
    assert forall|x: int| 0 <= x < e.owners@.len() implies #[trigger] e.owners@[x] as int == i by {
        assert(pack_owns(listings, e.owners@[x] as int, e.path@));
    }
    if e.owners@.len() >= 2 {
        assert(e.owners@[0] < e.owners@[1]);
        assert(false);
    }
    let x = choose|x: int| 0 <= x < e.owners@.len() && #[trigger] e.owners@[x] == i as usize;
    assert(e.owners@ =~= seq![i as usize]);
}

/// For packs with identical file sets, every union path is owned by the
/// first pack, so when all copies agree everywhere the run raises no
/// conflict and every path's source is the first pack: the output mirrors
/// it (and so either input, their contents being digest-identical).
pub proof fn lemma_identical_packs(
    listings: Seq<Seq<Seq<u8>>>,
    e: FileEntry,
    digests: Seq<Seq<u8>>,
)
    requires
        entry_ok(listings, e),
        listings.len() >= 1,
        forall|pk: int, p: Seq<u8>|
            0 <= pk < listings.len() ==> (#[trigger] listings[pk].contains(p) <==> listings[0]
                .contains(p)),
        all_digests_equal(digests),
    ensures
        !is_conflict(e.owners@, digests),
        e.owners@[0] == 0,
{
    assert(pack_owns(listings, e.owners@[0] as int, e.path@));
    assert(listings[0].contains(e.path@));
    assert(pack_owns(listings, 0, e.path@));
    assert(e.owners@.contains(0usize));
    let x = choose|x: int| 0 <= x < e.owners@.len() && #[trigger] e.owners@[x] == 0usize;
    if x > 0 {
        assert(e.owners@[0] < e.owners@[x]);
        assert(false);
    }
}

/// Strictly increasing sequences with the same members are the same
/// sequence.
#[verifier::spinoff_prover]
pub proof fn lemma_increasing_unique(s1: Seq<usize>, s2: Seq<usize>)
    requires
        strictly_increasing(s1),
        strictly_increasing(s2),
        forall|v: usize| s1.contains(v) <==> s2.contains(v),
    ensures
        s1 == s2,
    decreases s1.len(),
{
    if s1.len() == 0 {
        if s2.len() > 0 {
            assert(s2.contains(s2[0]));
            assert(s1.contains(s2[0]));
            assert(false);
        }
        assert(s1 =~= s2);
    } else {
        assert(s1.contains(s1[0]));
        assert(s2.contains(s1[0]));
        let x2 = choose|x: int| 0 <= x < s2.len() && #[trigger] s2[x] == s1[0];
        assert(0 <= x2 < s2.len() && s2[x2] == s1[0]);
        if x2 > 0 {
            assert(s2[0] < s2[x2]);
        }
        assert(s2.contains(s2[0]));
        assert(s1.contains(s2[0]));
        let x1 = choose|x: int| 0 <= x < s1.len() && #[trigger] s1[x] == s2[0];
        if x1 > 0 {
            assert(s1[0] < s1[x1]);
        }
        assert(s1[0] == s2[0]);
        let t1 = s1.drop_first();
        let t2 = s2.drop_first();
        assert forall|a: int, b: int| 0 <= a < b < t1.len() implies t1[a] < t1[b] by {
            assert(s1[a + 1] < s1[b + 1]);
        }
        assert forall|a: int, b: int| 0 <= a < b < t2.len() implies t2[a] < t2[b] by {
            assert(s2[a + 1] < s2[b + 1]);
        }
        assert forall|v: usize| t1.contains(v) implies t2.contains(v) by {
            lemma_tail_member(s1, v);
            lemma_tail_member(s2, v);
        }
        assert forall|v: usize| t2.contains(v) implies t1.contains(v) by {
            lemma_tail_member(s1, v);
            lemma_tail_member(s2, v);
        }
        lemma_increasing_unique(t1, t2);
        assert(t1.len() == s1.len() - 1);
        assert(t2.len() == s2.len() - 1);
        assert(s1.len() == s2.len());
        assert forall|x: int| 0 <= x < s1.len() implies s1[x] == s2[x] by {
            if x > 0 {
                assert(t1[x - 1] == t2[x - 1]);
                assert(t1[x - 1] == s1[x]);
                assert(t2[x - 1] == s2[x]);
            }
        }
        assert(s1 =~= s2);
    }
}

/// In a strictly increasing sequence, the members of the tail are exactly
/// the members greater than the head.
proof fn lemma_tail_member(s: Seq<usize>, v: usize)
    requires
        strictly_increasing(s),
        s.len() >= 1,
    ensures
        s.drop_first().contains(v) <==> (s.contains(v) && v > s[0]),
{
    let t = s.drop_first();
    if t.contains(v) {
        let x = choose|x: int| 0 <= x < t.len() && #[trigger] t[x] == v;
        assert(s[x + 1] == v);
        assert(s[0] < s[x + 1]);
        assert(s.contains(v));
    }
    if s.contains(v) && v > s[0] {
        let x = choose|x: int| 0 <= x < s.len() && #[trigger] s[x] == v;
        assert(x > 0);
        assert(t[x - 1] == v);
        assert(t.contains(v));
    }
}

/// Re-running the merge on the same listings finds the same owners for
/// every path: any two entries that are right for the same listings and
/// carry the same path have identical owner lists. With digests a function
/// of the files and the choices replayed, the same resolutions — and so a
/// byte-identical output tree — follow.
pub proof fn lemma_union_deterministic(listings: Seq<Seq<Seq<u8>>>, e1: FileEntry, e2: FileEntry)
    requires
        entry_ok(listings, e1),
        entry_ok(listings, e2),
        e1.path@ == e2.path@,
    ensures
        e1.owners@ == e2.owners@,
{
    assert forall|v: usize| e1.owners@.contains(v) implies e2.owners@.contains(v) by {
        let x = choose|x: int| 0 <= x < e1.owners@.len() && #[trigger] e1.owners@[x] == v;
        assert(pack_owns(listings, e1.owners@[x] as int, e1.path@));
        assert(e2.owners@.contains(v as int as usize));
    }
    assert forall|v: usize| e2.owners@.contains(v) implies e1.owners@.contains(v) by {
        let x = choose|x: int| 0 <= x < e2.owners@.len() && #[trigger] e2.owners@[x] == v;
        assert(pack_owns(listings, e2.owners@[x] as int, e2.path@));
        assert(e1.owners@.contains(v as int as usize));
    }
    lemma_increasing_unique(e1.owners@, e2.owners@);
}

} // verus!
