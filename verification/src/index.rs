//! The union index: one entry per distinct relative path across all packs,
//! carrying the ordered list of packs that contain it.
//!
//! Packs are numbered by their position in the run's argument order; that
//! order decides the default tie-break and the numbering shown when a
//! conflict is presented. A listing is the set of relative paths one pack
//! holds, as byte strings; the index is built from the listings alone, so no
//! file is hashed before the classifier asks for it.

use vstd::prelude::*;
use crate::bytes::{bytes_eq, copy_vec};

verus! {

/// One logical file of the union: its relative path and the packs that
/// contain it, as strictly increasing indices into the pack order.
pub struct FileEntry {
    pub path: Vec<u8>,
    pub owners: Vec<usize>,
}

/// Pack `i` holds a file at relative path `p`.
pub open spec fn pack_owns(listings: Seq<Seq<Seq<u8>>>, i: int, p: Seq<u8>) -> bool {
    0 <= i < listings.len() && listings[i].contains(p)
}

/// The values strictly increase along the sequence.
pub open spec fn strictly_increasing(s: Seq<usize>) -> bool {
    forall|a: int, b: int| 0 <= a < b < s.len() ==> s[a] < s[b]
}

/// Some entry of the index carries path `p`.
pub open spec fn has_entry_for(entries: Seq<FileEntry>, p: Seq<u8>) -> bool {
    exists|k: int| 0 <= k < entries.len() && (#[trigger] entries[k]).path@ == p
}

/// No two entries carry the same path.
pub open spec fn paths_distinct(entries: Seq<FileEntry>) -> bool {
    forall|k1: int, k2: int|
        0 <= k1 < k2 < entries.len() ==> (#[trigger] entries[k1]).path@ != (
        #[trigger] entries[k2]).path@
}

/// An entry is right for the listings: it has at least one owner, the owners
/// stand in pack order without repeats, and they are exactly the packs whose
/// listing holds the entry's path.
pub open spec fn entry_ok(listings: Seq<Seq<Seq<u8>>>, e: FileEntry) -> bool {
    &&& e.owners@.len() >= 1
    &&& strictly_increasing(e.owners@)
    &&& forall|x: int|
        0 <= x < e.owners@.len() ==> pack_owns(listings, #[trigger] e.owners@[x] as int, e.path@)
    &&& forall|pk: int| pack_owns(listings, pk, e.path@) ==> e.owners@.contains(pk as usize)
}

/// The index is right for the listings: entries are per-path unique, each
/// entry is right, and every listed path has an entry. So each path of the
/// union is owned by at least one pack and appears exactly once.
pub open spec fn union_ok(listings: Seq<Seq<Seq<u8>>>, entries: Seq<FileEntry>) -> bool {
    &&& paths_distinct(entries)
    &&& forall|k: int| 0 <= k < entries.len() ==> entry_ok(listings, #[trigger] entries[k])
    &&& forall|i: int, p: Seq<u8>| #[trigger] pack_owns(listings, i, p) ==> has_entry_for(entries, p)
}

/// Ownership restricted to the part of the listings a partial build has
/// seen: packs before `i` whole, pack `i` only through its first `j` paths.
spec fn pack_owns_upto(
    listings: Seq<Seq<Seq<u8>>>,
    i: int,
    j: int,
    pk: int,
    p: Seq<u8>,
) -> bool {
    ||| (0 <= pk < i && pk < listings.len() && listings[pk].contains(p))
    ||| (pk == i && 0 <= i < listings.len() && listings[i].take(j).contains(p))
}

/// `entry_ok`, over the seen part of the listings only.
spec fn entry_ok_upto(listings: Seq<Seq<Seq<u8>>>, i: int, j: int, e: FileEntry) -> bool {
    &&& e.owners@.len() >= 1
    &&& strictly_increasing(e.owners@)
    &&& forall|x: int|
        0 <= x < e.owners@.len() ==> pack_owns_upto(
            listings,
            i,
            j,
            #[trigger] e.owners@[x] as int,
            e.path@,
        )
    &&& forall|pk: int|
        #[trigger] pack_owns_upto(listings, i, j, pk, e.path@) ==> e.owners@.contains(pk as usize)
}

/// Every path of the seen part of the listings has an entry.
spec fn covered_upto(
    listings: Seq<Seq<Seq<u8>>>,
    i: int,
    j: int,
    entries: Seq<FileEntry>,
) -> bool {
    forall|pk: int, x: int|
        0 <= pk < listings.len() && 0 <= x < listings[pk].len() && (pk < i || (pk == i && x < j))
            ==> has_entry_for(entries, #[trigger] listings[pk][x])
}

/// A prefix one longer holds `p` exactly when the shorter prefix does or the
/// next element is `p`.
proof fn lemma_take_step(l: Seq<Seq<u8>>, j: int, p: Seq<u8>)
    requires
        0 <= j < l.len(),
    ensures
        l.take(j + 1).contains(p) <==> (l.take(j).contains(p) || l[j] == p),
{
    if l.take(j + 1).contains(p) {
        let idx = choose|idx: int|
            0 <= idx < l.take(j + 1).len() && #[trigger] l.take(j + 1)[idx] == p;
        if idx < j {
            assert(l.take(j)[idx] == p);
        }
    }
    if l.take(j).contains(p) {
        let idx = choose|idx: int| 0 <= idx < l.take(j).len() && #[trigger] l.take(j)[idx] == p;
        assert(l.take(j + 1)[idx] == p);
    }
    if l[j] == p {
        assert(l.take(j + 1)[j] == p);
    }
}

/// Seeing one more path of pack `i`'s listing moves partial ownership one
/// step: it either held already, or the path is exactly the new element.
proof fn lemma_owns_upto_advance(ls: Seq<Seq<Seq<u8>>>, i: usize, j: int, pk: int, p: Seq<u8>)
    requires
        (i as int) < ls.len(),
        0 <= j < ls[i as int].len(),
    ensures
        pack_owns_upto(ls, i as int, j, pk, p) ==> pack_owns_upto(ls, i as int, j + 1, pk, p),
        pack_owns_upto(ls, i as int, j + 1, pk, p) ==> (pack_owns_upto(ls, i as int, j, pk, p) || (
        pk == i as int && p == ls[i as int][j])),
{
    lemma_take_step(ls[i as int], j, p);
}

/// An entry whose path is not the element being seen stays right when the
/// seen part grows by that element.
proof fn lemma_entry_advance(ls: Seq<Seq<Seq<u8>>>, i: usize, j: int, e: FileEntry)
    requires
        (i as int) < ls.len(),
        0 <= j < ls[i as int].len(),
        entry_ok_upto(ls, i as int, j, e),
        e.path@ != ls[i as int][j],
    ensures
        entry_ok_upto(ls, i as int, j + 1, e),
{
    assert forall|x: int| 0 <= x < e.owners@.len() implies pack_owns_upto(
        ls,
        i as int,
        j + 1,
        #[trigger] e.owners@[x] as int,
        e.path@,
    ) by {
        assert(pack_owns_upto(ls, i as int, j, e.owners@[x] as int, e.path@));
        lemma_owns_upto_advance(ls, i, j, e.owners@[x] as int, e.path@);
    }
    assert forall|pk: int| #[trigger] pack_owns_upto(ls, i as int, j + 1, pk, e.path@) implies e
        .owners@.contains(pk as usize) by {
        lemma_owns_upto_advance(ls, i, j, pk, e.path@);
        assert(pack_owns_upto(ls, i as int, j, pk, e.path@));
    }
}

/// Looks a path up in the index.
fn find_entry(entries: &Vec<FileEntry>, path: &Vec<u8>) -> (r: Option<usize>)
    ensures
        match r {
            Some(k) => k < entries@.len() && entries@[k as int].path@ == path@,
            None => !has_entry_for(entries@, path@),
        },
{
    let mut k: usize = 0;
    while k < entries.len()
        invariant
            k <= entries@.len(),
            forall|k2: int| 0 <= k2 < k ==> (#[trigger] entries@[k2]).path@ != path@,
        decreases entries@.len() - k,
    {
        if bytes_eq(&entries[k].path, path) {
            return Some(k);
        }
        k += 1;
    }
    None
}

/// Builds the union index of the packs' listings, in one pass over the packs
/// in their given order. The result is right for the listings in the sense
/// of `union_ok`: one entry per distinct path, owned by exactly the packs
/// that list it, in pack order.
pub fn build_union(listings: &Vec<Vec<Vec<u8>>>) -> (entries: Vec<FileEntry>)
    ensures
        union_ok(listings.deep_view(), entries@),
{
    let ghost ls = listings.deep_view();
    let mut entries: Vec<FileEntry> = Vec::new();
    let mut i: usize = 0;
    while i < listings.len()
        invariant
            i <= listings@.len(),
            ls == listings.deep_view(),
            ls.len() == listings@.len(),
            paths_distinct(entries@),
            forall|k: int|
                0 <= k < entries@.len() ==> entry_ok_upto(ls, i as int, 0, #[trigger] entries@[k]),
            covered_upto(ls, i as int, 0, entries@),
        decreases listings@.len() - i,
    {
        let listing = &listings[i];
        proof {
            assert(ls[i as int] == listings@[i as int].deep_view());
            assert forall|x: int| 0 <= x < listing@.len() implies ls[i as int][x] == (
            #[trigger] listing@[x])@ by {
                assert(listing@[x].deep_view() =~= listing@[x]@);
            }
        }
        let mut j: usize = 0;
        while j < listing.len()
            invariant
                i < listings@.len(),
                j <= listing@.len(),
                ls == listings.deep_view(),
                ls.len() == listings@.len(),
                listing == &listings@[i as int],
                ls[i as int].len() == listing@.len(),
                forall|x: int|
                    0 <= x < listing@.len() ==> ls[i as int][x] == (#[trigger] listing@[x])@,
                paths_distinct(entries@),
                forall|k: int|
                    0 <= k < entries@.len() ==> entry_ok_upto(
                        ls,
                        i as int,
                        j as int,
                        #[trigger] entries@[k],
                    ),
                covered_upto(ls, i as int, j as int, entries@),
            decreases listing@.len() - j,
        {
            let p = &listing[j];
            proof {
                assert(ls[i as int][j as int] == p@);
            }
            match find_entry(&entries, p) {
                Some(k) => {
                    let ghost old_entries = entries@;
                    proof {
                        assert(entry_ok_upto(ls, i as int, j as int, entries@[k as int]));
                    }
                    let olen = entries[k].owners.len();
                    let last = entries[k].owners[olen - 1];
                    if last != i {
                        let mut owners = copy_vec(&entries[k].owners);
                        owners.push(i);
                        let path = copy_vec(&entries[k].path);
                        let replacement = FileEntry { path, owners };
                        entries[k] = replacement;
                        proof {
                            assert(entries@[k as int].owners@ == old_entries[k as int].owners@.push(
                                i,
                            ));
                            lemma_union_step_existing(ls, i, j as int, old_entries, entries@, k as int);
                        }
                    } else {
                        proof {
                            assert(entries@[k as int].owners@.last() == i);
                            lemma_union_step_seen(ls, i, j as int, entries@, k as int);
                        }
                    }
                }
                None => {
                    let mut owners: Vec<usize> = Vec::new();
                    owners.push(i);
                    proof {
                        assert(owners@ =~= seq![i]);
                    }
                    let ghost old_entries = entries@;
                    entries.push(FileEntry { path: copy_vec(p), owners });
                    proof {
                        assert(entries@ == old_entries.push(entries@.last()));
                        lemma_union_step_new(ls, i, j as int, old_entries, entries@);
                    }
                }
            }
            j += 1;
        }
        proof {
            lemma_union_pack_done(ls, i, entries@);
        }
        i += 1;
    }
    proof {
        lemma_union_finish(ls, entries@);
    }
    entries
}

/// Seeing a path whose entry already records the current pack as its last
/// owner keeps every invariant of the build, with nothing changed.
proof fn lemma_union_step_seen(ls: Seq<Seq<Seq<u8>>>, i: usize, j: int, entries: Seq<FileEntry>, k: int)
    requires
        (i as int) < ls.len(),
        0 <= j < ls[i as int].len(),
        0 <= k < entries.len(),
        paths_distinct(entries),
        forall|k2: int|
            0 <= k2 < entries.len() ==> entry_ok_upto(ls, i as int, j, #[trigger] entries[k2]),
        covered_upto(ls, i as int, j, entries),
        entries[k].path@ == ls[i as int][j],
        entries[k].owners@.last() == i,
    ensures
        forall|k2: int|
            0 <= k2 < entries.len() ==> entry_ok_upto(ls, i as int, j + 1, #[trigger] entries[k2]),
        covered_upto(ls, i as int, j + 1, entries),
{
    assert forall|k2: int| 0 <= k2 < entries.len() implies entry_ok_upto(
        ls,
        i as int,
        j + 1,
        #[trigger] entries[k2],
    ) by {
        let e = entries[k2];
        assert(entry_ok_upto(ls, i as int, j, e));
        if k2 == k {
            assert forall|x: int| 0 <= x < e.owners@.len() implies pack_owns_upto(
                ls,
                i as int,
                j + 1,
                #[trigger] e.owners@[x] as int,
                e.path@,
            ) by {
                assert(pack_owns_upto(ls, i as int, j, e.owners@[x] as int, e.path@));
                lemma_owns_upto_advance(ls, i, j, e.owners@[x] as int, e.path@);
            }
            assert(e.owners@[e.owners@.len() - 1] == i);
            assert(e.owners@.contains(i));
            assert forall|pk: int| #[trigger] pack_owns_upto(ls, i as int, j + 1, pk, e.path@) implies e
                .owners@.contains(pk as usize) by {
                lemma_owns_upto_advance(ls, i, j, pk, e.path@);
                if !pack_owns_upto(ls, i as int, j, pk, e.path@) {
                    assert(pk == i as int);
                    assert(pk as usize == i);
                }
            }
        } else {
            assert(e.path@ != ls[i as int][j]) by {
                if k2 < k {
                    assert(entries[k2].path@ != entries[k].path@);
                } else {
                    assert(entries[k].path@ != entries[k2].path@);
                }
            }
            lemma_entry_advance(ls, i, j, e);
        }
    }
    assert forall|pk: int, x: int|
        0 <= pk < ls.len() && 0 <= x < ls[pk].len() && (pk < i as int || (pk == i as int && x < j
            + 1)) implies has_entry_for(entries, #[trigger] ls[pk][x]) by {
        if pk == i as int && x == j {
            assert(entries[k].path@ == ls[pk][x]);
        }
    }
}

/// Appending the current pack to the owner list of the path's entry keeps
/// every invariant of the build.
proof fn lemma_union_step_existing(
    ls: Seq<Seq<Seq<u8>>>,
    i: usize,
    j: int,
    old_entries: Seq<FileEntry>,
    entries: Seq<FileEntry>,
    k: int,
)
    requires
        (i as int) < ls.len(),
        0 <= j < ls[i as int].len(),
        0 <= k < old_entries.len(),
        paths_distinct(old_entries),
        forall|k2: int|
            0 <= k2 < old_entries.len() ==> entry_ok_upto(ls, i as int, j, #[trigger] old_entries[k2]),
        covered_upto(ls, i as int, j, old_entries),
        old_entries[k].path@ == ls[i as int][j],
        old_entries[k].owners@.last() != i,
        entries == old_entries.update(k, entries[k]),
        entries[k].path@ == old_entries[k].path@,
        entries[k].owners@ == old_entries[k].owners@.push(i),
    ensures
        paths_distinct(entries),
        forall|k2: int|
            0 <= k2 < entries.len() ==> entry_ok_upto(ls, i as int, j + 1, #[trigger] entries[k2]),
        covered_upto(ls, i as int, j + 1, entries),
{
    let old_e = old_entries[k];
    let e = entries[k];
    assert(entry_ok_upto(ls, i as int, j, old_e));
    assert forall|x: int| 0 <= x < old_e.owners@.len() implies old_e.owners@[x] < i by {
        assert(pack_owns_upto(ls, i as int, j, old_e.owners@[x] as int, old_e.path@));
        let lastx = old_e.owners@.len() - 1;
        assert(pack_owns_upto(ls, i as int, j, old_e.owners@[lastx] as int, old_e.path@));
        if x < lastx {
            assert(old_e.owners@[x] < old_e.owners@[lastx]);
        }
    }
    assert(entry_ok_upto(ls, i as int, j + 1, e)) by {
        assert forall|a: int, b: int| 0 <= a < b < e.owners@.len() implies e.owners@[a] < e
            .owners@[b] by {
            if b < e.owners@.len() - 1 {
                assert(e.owners@[a] == old_e.owners@[a]);
                assert(e.owners@[b] == old_e.owners@[b]);
            } else {
                assert(e.owners@[b] == i);
                assert(e.owners@[a] == old_e.owners@[a]);
            }
        }
        assert forall|x: int| 0 <= x < e.owners@.len() implies pack_owns_upto(
            ls,
            i as int,
            j + 1,
            #[trigger] e.owners@[x] as int,
            e.path@,
        ) by {
            if x < e.owners@.len() - 1 {
                assert(e.owners@[x] == old_e.owners@[x]);
                assert(pack_owns_upto(ls, i as int, j, old_e.owners@[x] as int, old_e.path@));
                lemma_owns_upto_advance(ls, i, j, e.owners@[x] as int, e.path@);
            } else {
                assert(e.owners@[x] == i);
                lemma_take_step(ls[i as int], j, e.path@);
                assert(ls[i as int].take(j + 1).contains(e.path@));
            }
        }
        assert(e.owners@[e.owners@.len() - 1] == i);
        assert(e.owners@.contains(i));
        assert forall|pk: int| #[trigger] pack_owns_upto(ls, i as int, j + 1, pk, e.path@) implies e
            .owners@.contains(pk as usize) by {
            lemma_owns_upto_advance(ls, i, j, pk, e.path@);
            if pack_owns_upto(ls, i as int, j, pk, e.path@) {
                assert(old_e.owners@.contains(pk as usize));
                let x = choose|x: int|
                    0 <= x < old_e.owners@.len() && #[trigger] old_e.owners@[x] == pk as usize;
                assert(e.owners@[x] == pk as usize);
                assert(e.owners@.contains(pk as usize));
            } else {
                assert(pk == i as int);
            }
        }
    }
    assert forall|k2: int| 0 <= k2 < entries.len() implies entry_ok_upto(
        ls,
        i as int,
        j + 1,
        #[trigger] entries[k2],
    ) by {
        if k2 != k {
            let e2 = entries[k2];
            assert(e2 == old_entries[k2]);
            assert(entry_ok_upto(ls, i as int, j, e2));
            assert(e2.path@ != ls[i as int][j]) by {
                if k2 < k {
                    assert(old_entries[k2].path@ != old_entries[k].path@);
                } else {
                    assert(old_entries[k].path@ != old_entries[k2].path@);
                }
            }
            lemma_entry_advance(ls, i, j, e2);
        }
    }
    assert forall|k1: int, k2: int| 0 <= k1 < k2 < entries.len() implies (
    #[trigger] entries[k1]).path@ != (#[trigger] entries[k2]).path@ by {
        assert(entries[k1].path@ == old_entries[k1].path@);
        assert(entries[k2].path@ == old_entries[k2].path@);
        assert(old_entries[k1].path@ != old_entries[k2].path@);
    }
    assert forall|pk: int, x: int|
        0 <= pk < ls.len() && 0 <= x < ls[pk].len() && (pk < i as int || (pk == i as int && x < j
            + 1)) implies has_entry_for(entries, #[trigger] ls[pk][x]) by {
        if pk == i as int && x == j {
            assert(entries[k].path@ == ls[pk][x]);
        } else {
            assert(has_entry_for(old_entries, ls[pk][x]));
            let k2 = choose|k2: int|
                0 <= k2 < old_entries.len() && (#[trigger] old_entries[k2]).path@ == ls[pk][x];
            assert(entries[k2].path@ == ls[pk][x]);
        }
    }
}

/// Opening a fresh entry for a path no seen part of the listings holds keeps
/// every invariant of the build.
proof fn lemma_union_step_new(
    ls: Seq<Seq<Seq<u8>>>,
    i: usize,
    j: int,
    old_entries: Seq<FileEntry>,
    entries: Seq<FileEntry>,
)
    requires
        (i as int) < ls.len(),
        0 <= j < ls[i as int].len(),
        paths_distinct(old_entries),
        forall|k2: int|
            0 <= k2 < old_entries.len() ==> entry_ok_upto(ls, i as int, j, #[trigger] old_entries[k2]),
        covered_upto(ls, i as int, j, old_entries),
        !has_entry_for(old_entries, ls[i as int][j]),
        entries == old_entries.push(entries.last()),
        entries.last().path@ == ls[i as int][j],
        entries.last().owners@ == seq![i],
    ensures
        paths_distinct(entries),
        forall|k2: int|
            0 <= k2 < entries.len() ==> entry_ok_upto(ls, i as int, j + 1, #[trigger] entries[k2]),
        covered_upto(ls, i as int, j + 1, entries),
{
    let e = entries.last();
    let p = ls[i as int][j];
    assert forall|pk: int| !(#[trigger] pack_owns_upto(ls, i as int, j, pk, p)) by {
        if pack_owns_upto(ls, i as int, j, pk, p) {
            if 0 <= pk < i as int {
                let x = choose|x: int| 0 <= x < ls[pk].len() && #[trigger] ls[pk][x] == p;
                assert(has_entry_for(old_entries, ls[pk][x]));
            } else {
                let x = choose|x: int|
                    0 <= x < ls[i as int].take(j).len() && #[trigger] ls[i as int].take(j)[x] == p;
                assert(ls[i as int][x] == p);
                assert(has_entry_for(old_entries, ls[i as int][x]));
            }
        }
    }
    assert(entry_ok_upto(ls, i as int, j + 1, e)) by {
        assert(e.owners@[0] == i);
        assert(e.owners@.contains(i));
        lemma_take_step(ls[i as int], j, p);
        assert(ls[i as int].take(j + 1).contains(p));
        assert forall|x: int| 0 <= x < e.owners@.len() implies pack_owns_upto(
            ls,
            i as int,
            j + 1,
            #[trigger] e.owners@[x] as int,
            e.path@,
        ) by {
            assert(x == 0);
            assert(e.owners@[x] == i);
        }
        assert forall|pk: int| #[trigger] pack_owns_upto(ls, i as int, j + 1, pk, e.path@) implies e
            .owners@.contains(pk as usize) by {
            lemma_owns_upto_advance(ls, i, j, pk, e.path@);
            if !pack_owns_upto(ls, i as int, j, pk, e.path@) {
                assert(pk == i as int);
                assert(pk as usize == i);
            }
        }
    }
    assert forall|k2: int| 0 <= k2 < entries.len() implies entry_ok_upto(
        ls,
        i as int,
        j + 1,
        #[trigger] entries[k2],
    ) by {
        if k2 < old_entries.len() {
            let e2 = entries[k2];
            assert(e2 == old_entries[k2]);
            assert(entry_ok_upto(ls, i as int, j, e2));
            assert(e2.path@ != p) by {
                if e2.path@ == p {
                    assert(has_entry_for(old_entries, p));
                }
            }
            lemma_entry_advance(ls, i, j, e2);
        } else {
            assert(entries[k2] == e);
        }
    }
    assert forall|k1: int, k2: int| 0 <= k1 < k2 < entries.len() implies (
    #[trigger] entries[k1]).path@ != (#[trigger] entries[k2]).path@ by {
        if k2 == entries.len() - 1 {
            assert(entries[k1] == old_entries[k1]);
            if entries[k1].path@ == p {
                assert(has_entry_for(old_entries, p));
            }
        } else {
            assert(entries[k1] == old_entries[k1]);
            assert(entries[k2] == old_entries[k2]);
            assert(old_entries[k1].path@ != old_entries[k2].path@);
        }
    }
    assert forall|pk: int, x: int|
        0 <= pk < ls.len() && 0 <= x < ls[pk].len() && (pk < i as int || (pk == i as int && x < j
            + 1)) implies has_entry_for(entries, #[trigger] ls[pk][x]) by {
        if pk == i as int && x == j {
            assert(entries[entries.len() - 1].path@ == ls[pk][x]);
        } else {
            assert(has_entry_for(old_entries, ls[pk][x]));
            let k2 = choose|k2: int|
                0 <= k2 < old_entries.len() && (#[trigger] old_entries[k2]).path@ == ls[pk][x];
            assert(entries[k2].path@ == ls[pk][x]);
        }
    }
}

/// At a pack boundary, ownership over the whole of pack `i`'s listing is
/// ownership with the next pack's listing not yet begun.
proof fn lemma_owns_pack_boundary(ls: Seq<Seq<Seq<u8>>>, i: usize, pk: int, p: Seq<u8>)
    requires
        (i as int) < ls.len(),
    ensures
        pack_owns_upto(ls, i as int, ls[i as int].len() as int, pk, p) <==> pack_owns_upto(
            ls,
            i as int + 1,
            0,
            pk,
            p,
        ),
{
    assert(ls[i as int].take(ls[i as int].len() as int) =~= ls[i as int]);
    if i as int + 1 < ls.len() {
        assert(ls[i as int + 1].take(0).len() == 0);
    }
}

/// Finishing one pack's listing turns the partial invariant at its full
/// length into the partial invariant of the next pack at zero.
proof fn lemma_union_pack_done(ls: Seq<Seq<Seq<u8>>>, i: usize, entries: Seq<FileEntry>)
    requires
        (i as int) < ls.len(),
        forall|k2: int|
            0 <= k2 < entries.len() ==> entry_ok_upto(
                ls,
                i as int,
                ls[i as int].len() as int,
                #[trigger] entries[k2],
            ),
        covered_upto(ls, i as int, ls[i as int].len() as int, entries),
    ensures
        forall|k2: int|
            0 <= k2 < entries.len() ==> entry_ok_upto(ls, i as int + 1, 0, #[trigger] entries[k2]),
        covered_upto(ls, i as int + 1, 0, entries),
{
    let full = ls[i as int].len() as int;
    assert forall|k2: int| 0 <= k2 < entries.len() implies entry_ok_upto(
        ls,
        i as int + 1,
        0,
        #[trigger] entries[k2],
    ) by {
        let e = entries[k2];
        assert(entry_ok_upto(ls, i as int, full, e));
        assert forall|x: int| 0 <= x < e.owners@.len() implies pack_owns_upto(
            ls,
            i as int + 1,
            0,
            #[trigger] e.owners@[x] as int,
            e.path@,
        ) by {
            assert(pack_owns_upto(ls, i as int, full, e.owners@[x] as int, e.path@));
            lemma_owns_pack_boundary(ls, i, e.owners@[x] as int, e.path@);
        }
        assert forall|pk: int| #[trigger] pack_owns_upto(ls, i as int + 1, 0, pk, e.path@) implies e
            .owners@.contains(pk as usize) by {
            lemma_owns_pack_boundary(ls, i, pk, e.path@);
            assert(pack_owns_upto(ls, i as int, full, pk, e.path@));
        }
    }
    assert forall|pk: int, x: int|
        0 <= pk < ls.len() && 0 <= x < ls[pk].len() && (pk < i as int + 1 || (pk == i as int + 1
            && x < 0)) implies has_entry_for(entries, #[trigger] ls[pk][x]) by {
        assert(pk < i as int || (pk == i as int && x < full));
    }
}

/// After the last pack, the partial invariant is the full one.
proof fn lemma_union_finish(ls: Seq<Seq<Seq<u8>>>, entries: Seq<FileEntry>)
    requires
        paths_distinct(entries),
        forall|k2: int|
            0 <= k2 < entries.len() ==> entry_ok_upto(ls, ls.len() as int, 0, #[trigger] entries[k2]),
        covered_upto(ls, ls.len() as int, 0, entries),
    ensures
        union_ok(ls, entries),
{
    assert forall|k2: int| 0 <= k2 < entries.len() implies entry_ok(ls, #[trigger] entries[k2]) by {
        let e = entries[k2];
        assert(entry_ok_upto(ls, ls.len() as int, 0, e));
        assert forall|x: int| 0 <= x < e.owners@.len() implies pack_owns(
            ls,
            #[trigger] e.owners@[x] as int,
            e.path@,
        ) by {
            assert(pack_owns_upto(ls, ls.len() as int, 0, e.owners@[x] as int, e.path@));
        }
        assert forall|pk: int| pack_owns(ls, pk, e.path@) implies e.owners@.contains(
            pk as usize,
        ) by {
            assert(pack_owns_upto(ls, ls.len() as int, 0, pk, e.path@));
        }
    }
    assert forall|i: int, p: Seq<u8>| #[trigger] pack_owns(ls, i, p) implies has_entry_for(
        entries,
        p,
    ) by {
        let x = choose|x: int| 0 <= x < ls[i].len() && #[trigger] ls[i][x] == p;
        assert(has_entry_for(entries, ls[i][x]));
    }
}

} // verus!
