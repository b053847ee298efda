//! End-to-end and per-component tests of the merge core, run with the real
//! hash primitive linked.

use pack_combine::bytes::bytes_eq;
use pack_combine::classify::{
    classify_all, classify_entry, split_statuses, Conflict, PackDigest, Resolution,
};
use pack_combine::hashing::{hash_bytes, hash_chunks, Hasher};
use pack_combine::hexcode::hex_encode;
use pack_combine::index::{build_union, FileEntry};
use pack_combine::plan::{copy_plan, join_path, validate_run, ValidationError};
use pack_combine::resolve::{parse_choice, resolve_conflict};

fn hex_string(bytes: &Vec<u8>) -> String {
    String::from_utf8(hex_encode(bytes)).unwrap()
}

fn find_entry_by_path<'a>(entries: &'a [FileEntry], path: &[u8]) -> &'a FileEntry {
    entries
        .iter()
        .find(|e| e.path.as_slice() == path)
        .expect("no entry for path")
}

#[test]
fn bytes_eq_agrees_with_equality() {
    assert!(bytes_eq(&b"abc".to_vec(), &b"abc".to_vec()));
    assert!(!bytes_eq(&b"abc".to_vec(), &b"abd".to_vec()));
    assert!(!bytes_eq(&b"abc".to_vec(), &b"abcd".to_vec()));
    assert!(bytes_eq(&Vec::new(), &Vec::new()));
}

#[test]
fn hex_encode_known_values() {
    assert_eq!(hex_string(&vec![0x00, 0x0f, 0xa5, 0xff]), "000fa5ff");
    assert_eq!(hex_string(&Vec::new()), "");
}

#[test]
fn hex_encode_matches_reference_encoder() {
    let data: Vec<u8> = (0u16..256).map(|b| b as u8).collect();
    assert_eq!(hex_string(&data), hex::encode(&data));
}

#[test]
fn sha256_of_known_string() {
    let digest = hash_bytes(&b"abc".to_vec());
    assert_eq!(digest.len(), 32);
    assert_eq!(
        hex_string(&digest),
        "ba7816bf8f01cfea414140de5dae2223b00361a396177a9cb410ff61f20015ad"
    );
}

#[test]
fn sha256_of_empty_stream() {
    let digest = hash_bytes(&Vec::new());
    assert_eq!(
        hex_string(&digest),
        "e3b0c44298fc1c149afbf4c8996fb92427ae41e4649b934ca495991b7852b855"
    );
}

#[test]
fn streamed_digest_equals_whole_digest() {
    let chunks = vec![b"he".to_vec(), b"l".to_vec(), Vec::new(), b"lo".to_vec()];
    assert_eq!(hash_chunks(&chunks), hash_bytes(&b"hello".to_vec()));
}

#[test]
fn hasher_streams_incrementally() {
    let mut h = Hasher::new();
    h.update(b"ab");
    h.update(b"c");
    assert_eq!(h.finalize(), hash_bytes(&b"abc".to_vec()));
}

#[test]
fn union_of_two_packs() {
    let listings = vec![
        vec![b"x.txt".to_vec()],
        vec![b"x.txt".to_vec(), b"y.txt".to_vec()],
    ];
    let entries = build_union(&listings);
    assert_eq!(entries.len(), 2);
    let x = find_entry_by_path(&entries, b"x.txt");
    assert_eq!(x.owners, vec![0, 1]);
    let y = find_entry_by_path(&entries, b"y.txt");
    assert_eq!(y.owners, vec![1]);
}

#[test]
fn union_ignores_repeats_within_one_listing() {
    let listings = vec![vec![b"a".to_vec(), b"a".to_vec()], vec![b"a".to_vec()]];
    let entries = build_union(&listings);
    assert_eq!(entries.len(), 1);
    assert_eq!(entries[0].owners, vec![0, 1]);
}

#[test]
fn union_of_no_packs_is_empty() {
    let entries = build_union(&Vec::new());
    assert!(entries.is_empty());
}

#[test]
fn classify_single_owner_resolves_without_digests() {
    let entry = FileEntry { path: b"y.txt".to_vec(), owners: vec![1] };
    let r = classify_entry(&entry, &Vec::new());
    let res = r.ok().expect("single owner must resolve");
    assert_eq!(res.path, b"y.txt".to_vec());
    assert_eq!(res.pack, 1);
}

#[test]
fn classify_agreeing_digests_picks_lowest_pack() {
    let d = hash_bytes(&b"same".to_vec());
    let entry = FileEntry { path: b"x.txt".to_vec(), owners: vec![1, 3, 4] };
    let digests = vec![d.clone(), d.clone(), d.clone()];
    let r = classify_entry(&entry, &digests);
    let res = r.ok().expect("agreeing digests must resolve");
    assert_eq!(res.pack, 1);
    assert_eq!(res.path, b"x.txt".to_vec());
}

#[test]
fn classify_divergent_digests_raises_conflict() {
    let d1 = hash_bytes(&b"hello".to_vec());
    let d2 = hash_bytes(&b"world".to_vec());
    let entry = FileEntry { path: b"x.txt".to_vec(), owners: vec![0, 2] };
    let digests = vec![d1.clone(), d2.clone()];
    let r = classify_entry(&entry, &digests);
    let c = r.err().expect("divergent digests must conflict");
    assert_eq!(c.path, b"x.txt".to_vec());
    assert_eq!(c.entries.len(), 2);
    assert_eq!(c.entries[0].pack, 0);
    assert_eq!(c.entries[0].digest, d1);
    assert_eq!(c.entries[1].pack, 2);
    assert_eq!(c.entries[1].digest, d2);
}

#[test]
fn parse_choice_accepts_only_the_numbered_range() {
    assert_eq!(parse_choice(&b"1\n".to_vec(), 2), Some(0));
    assert_eq!(parse_choice(&b"2\n".to_vec(), 2), Some(1));
    assert_eq!(parse_choice(&b" 2 \r\n".to_vec(), 2), Some(1));
    assert_eq!(parse_choice(&b"0\n".to_vec(), 2), None);
    assert_eq!(parse_choice(&b"3\n".to_vec(), 2), None);
    assert_eq!(parse_choice(&b"\n".to_vec(), 2), None);
    assert_eq!(parse_choice(&b"".to_vec(), 2), None);
    assert_eq!(parse_choice(&b"two\n".to_vec(), 2), None);
    assert_eq!(parse_choice(&b"1x\n".to_vec(), 2), None);
    assert_eq!(parse_choice(&b"-1\n".to_vec(), 2), None);
    assert_eq!(parse_choice(&b"02\n".to_vec(), 2), Some(1));
    assert_eq!(
        parse_choice(&b"999999999999999999999999999999999999999\n".to_vec(), 2),
        None
    );
}

#[test]
fn resolve_conflict_takes_the_chosen_pack() {
    let c = Conflict {
        path: b"x.txt".to_vec(),
        entries: vec![
            PackDigest { pack: 0, digest: hash_bytes(&b"hello".to_vec()) },
            PackDigest { pack: 1, digest: hash_bytes(&b"world".to_vec()) },
        ],
    };
    assert!(resolve_conflict(&c, &b"bogus\n".to_vec()).is_none());
    assert!(resolve_conflict(&c, &b"0\n".to_vec()).is_none());
    assert!(resolve_conflict(&c, &b"3\n".to_vec()).is_none());
    let res = resolve_conflict(&c, &b"2\n".to_vec()).expect("valid choice");
    assert_eq!(res.path, b"x.txt".to_vec());
    assert_eq!(res.pack, 1);
}

#[test]
fn validate_rejects_existing_output() {
    let r = validate_run(true, &vec![true, true]);
    assert!(matches!(r, Err(ValidationError::OutputExists)));
}

#[test]
fn validate_rejects_first_bad_pack() {
    let r = validate_run(false, &vec![true, false, false]);
    assert!(matches!(r, Err(ValidationError::InvalidPack { index: 1 })));
}

#[test]
fn validate_accepts_a_clean_run() {
    assert!(validate_run(false, &vec![true, true]).is_ok());
    assert!(validate_run(false, &Vec::new()).is_ok());
}

#[test]
fn join_path_places_one_separator() {
    assert_eq!(join_path(&b"out".to_vec(), &b"a/b.txt".to_vec()), b"out/a/b.txt".to_vec());
}

#[test]
fn copy_plan_lists_one_copy_per_resolution() {
    let resolutions = vec![
        Resolution { path: b"x.txt".to_vec(), pack: 1 },
        Resolution { path: b"y.txt".to_vec(), pack: 0 },
    ];
    let roots = vec![b"a".to_vec(), b"b".to_vec()];
    let ops = copy_plan(&resolutions, &roots, &b"out".to_vec());
    assert_eq!(ops.len(), 2);
    assert_eq!(ops[0].src, b"b/x.txt".to_vec());
    assert_eq!(ops[0].dst, b"out/x.txt".to_vec());
    assert_eq!(ops[1].src, b"a/y.txt".to_vec());
    assert_eq!(ops[1].dst, b"out/y.txt".to_vec());
}

#[test]
fn split_statuses_keeps_entry_order() {
    let d1 = hash_bytes(&b"one".to_vec());
    let d2 = hash_bytes(&b"two".to_vec());
    let entries = vec![
        FileEntry { path: b"a".to_vec(), owners: vec![0, 1] },
        FileEntry { path: b"b".to_vec(), owners: vec![1] },
        FileEntry { path: b"c".to_vec(), owners: vec![0, 2] },
    ];
    let digest_tables = vec![
        vec![d1.clone(), d2.clone()],
        Vec::new(),
        vec![d1.clone(), d1.clone()],
    ];
    let statuses = classify_all(&entries, &digest_tables);
    let (resolutions, conflicts) = split_statuses(statuses);
    assert_eq!(resolutions.len(), 2);
    assert_eq!(resolutions[0].path, b"b".to_vec());
    assert_eq!(resolutions[0].pack, 1);
    assert_eq!(resolutions[1].path, b"c".to_vec());
    assert_eq!(resolutions[1].pack, 0);
    assert_eq!(conflicts.len(), 1);
    assert_eq!(conflicts[0].path, b"a".to_vec());
}

/// Runs the whole core on in-memory packs: listings, per-path contents per
/// pack, and a scripted choice per conflict, in conflict order.
fn run_merge(
    listings: &Vec<Vec<Vec<u8>>>,
    content: impl Fn(usize, &[u8]) -> Vec<u8>,
    choices: &[&[u8]],
) -> (Vec<Resolution>, usize) {
    let entries = build_union(listings);
    let digest_tables: Vec<Vec<Vec<u8>>> = entries
        .iter()
        .map(|entry| {
            if entry.owners.len() >= 2 {
                entry
                    .owners
                    .iter()
                    .map(|&pk| hash_bytes(&content(pk, &entry.path)))
                    .collect()
            } else {
                Vec::new()
            }
        })
        .collect();
    let statuses = classify_all(&entries, &digest_tables);
    let (mut resolutions, conflicts) = split_statuses(statuses);
    let n_conflicts = conflicts.len();
    for (c, line) in conflicts.iter().zip(choices.iter()) {
        let res = resolve_conflict(c, &line.to_vec()).expect("scripted choice must be valid");
        resolutions.push(res);
    }
    (resolutions, n_conflicts)
}

#[test]
fn identical_packs_merge_without_prompting() {
    let listings = vec![
        vec![b"a.txt".to_vec(), b"d/b.txt".to_vec()],
        vec![b"a.txt".to_vec(), b"d/b.txt".to_vec()],
    ];
    let (resolutions, n_conflicts) =
        run_merge(&listings, |_, path| path.to_vec(), &[]);
    assert_eq!(n_conflicts, 0);
    assert_eq!(resolutions.len(), 2);
    for res in &resolutions {
        assert_eq!(res.pack, 0);
    }
}

#[test]
fn unique_paths_keep_their_only_pack() {
    let listings = vec![vec![b"only-a".to_vec()], vec![b"only-b".to_vec()]];
    let (resolutions, n_conflicts) = run_merge(&listings, |pk, _| vec![pk as u8], &[]);
    assert_eq!(n_conflicts, 0);
    assert_eq!(resolutions.len(), 2);
    for res in &resolutions {
        if res.path == b"only-a".to_vec() {
            assert_eq!(res.pack, 0);
        } else {
            assert_eq!(res.path, b"only-b".to_vec());
            assert_eq!(res.pack, 1);
        }
    }
}

#[test]
fn merge_scenario_two_packs_one_conflict() {
    // pack 0 holds x.txt = "hello"; pack 1 holds x.txt = "world" and
    // y.txt = "z"; choosing option 2 for x.txt takes pack 1's copy
    let listings = vec![
        vec![b"x.txt".to_vec()],
        vec![b"x.txt".to_vec(), b"y.txt".to_vec()],
    ];
    let content = |pk: usize, path: &[u8]| -> Vec<u8> {
        match (pk, path) {
            (0, b"x.txt") => b"hello".to_vec(),
            (1, b"x.txt") => b"world".to_vec(),
            (1, b"y.txt") => b"z".to_vec(),
            _ => panic!("no such file"),
        }
    };
    let (resolutions, n_conflicts) = run_merge(&listings, content, &[b"2\n"]);
    assert_eq!(n_conflicts, 1);
    assert_eq!(resolutions.len(), 2);
    let x = resolutions.iter().find(|r| r.path == b"x.txt".to_vec()).unwrap();
    assert_eq!(x.pack, 1);
    let y = resolutions.iter().find(|r| r.path == b"y.txt".to_vec()).unwrap();
    assert_eq!(y.pack, 1);
    // the planned copies take both files from pack 1
    let roots = vec![b"a".to_vec(), b"b".to_vec()];
    let ops = copy_plan(&resolutions, &roots, &b"out".to_vec());
    for op in &ops {
        assert!(op.src.starts_with(b"b/"));
    }
}

#[test]
fn rerunning_with_same_choices_is_idempotent() {
    let listings = vec![
        vec![b"x.txt".to_vec()],
        vec![b"x.txt".to_vec(), b"y.txt".to_vec()],
    ];
    let content = |pk: usize, path: &[u8]| -> Vec<u8> {
        match (pk, path) {
            (0, b"x.txt") => b"hello".to_vec(),
            (1, b"x.txt") => b"world".to_vec(),
            (1, b"y.txt") => b"z".to_vec(),
            _ => panic!("no such file"),
        }
    };
    let (res1, _) = run_merge(&listings, content, &[b"2\n"]);
    let (res2, _) = run_merge(&listings, content, &[b"2\n"]);
    assert_eq!(res1.len(), res2.len());
    for (a, b) in res1.iter().zip(res2.iter()) {
        assert_eq!(a.path, b.path);
        assert_eq!(a.pack, b.pack);
    }
}
