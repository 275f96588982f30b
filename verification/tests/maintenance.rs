use rustic::backend::{Backend, MemoryBackend};
use rustic::blob::{BlobKind, Entry, Location};
use rustic::idmap::IdMap;
use rustic::check::Report;
use rustic::chunker::ChunkerParams;
use rustic::compress::Compression;
use rustic::crypto::KdfParams;
use rustic::error::{ErrorKind, FileType};
use rustic::id::Id;
use rustic::prune::{classify, PackAction, Phase};
use rustic::reach::Mark;
use rustic::repo::{Config, Repository, FORMAT_VERSION};
use rustic::tree::{Node, NodeKind, Snapshot};

fn open_new() -> Repository<MemoryBackend> {
    let config = Config {
        version: FORMAT_VERSION,
        chunker: ChunkerParams { min_size: 64, avg_size: 16, max_size: 64 },
        compression: Compression::Stored,
    };
    Repository::init(MemoryBackend::new(), b"first secret", KdfParams { log_n: 4, r: 1, p: 1 }, config)
        .unwrap()
}

fn noise(len: usize, seed: u8) -> Vec<u8> {
    let mut x: u32 = 0x9e37_79b9 ^ ((seed as u32) << 8);
    (0..len)
        .map(|_| {
            x = x.wrapping_mul(1_664_525).wrapping_add(1_013_904_223);
            (x >> 24) as u8
        })
        .collect()
}

fn file(name: &str, content: Vec<Id>) -> Node {
    Node {
        name: name.as_bytes().to_vec(),
        kind: NodeKind::File,
        mode: 0o600,
        uid: 0,
        gid: 0,
        mtime: 10,
        size: 64 * content.len() as u64,
        content,
        subtree: None,
        target: Vec::new(),
    }
}

fn dir(name: &str, tree: Id) -> Node {
    Node {
        name: name.as_bytes().to_vec(),
        kind: NodeKind::Dir,
        mode: 0o700,
        uid: 0,
        gid: 0,
        mtime: 10,
        size: 0,
        content: Vec::new(),
        subtree: Some(tree),
        target: Vec::new(),
    }
}

fn snap(tree: Id, time: u64) -> Snapshot {
    Snapshot { time, host: b"h".to_vec(), paths: Vec::new(), tags: Vec::new(), parent: None, tree }
}

/// Backs up one file in a directory and gives the snapshot, the root tree
/// and the addresses of the chunks.
fn backup(repo: &mut Repository<MemoryBackend>, data: &[u8], time: u64) -> (Id, Id, Vec<Id>) {
    let ids = repo.save_file(data).unwrap();
    let inner = repo.save_tree(&vec![file("f", ids.clone())]).unwrap();
    let root = repo.save_tree(&vec![dir("d", inner)]).unwrap();
    let sid = repo.commit_snapshot(&snap(root, time)).unwrap();
    (sid, root, ids)
}

fn count(repo: &Repository<MemoryBackend>, file_type: FileType) -> usize {
    repo.backend().list(file_type).unwrap().len()
}

fn clean(report: &Report) -> bool {
    report.missing.is_empty() && report.corrupt.is_empty() && report.unreadable.is_empty()
        && report.stray.is_empty()
}

#[test]
fn check_is_clean_after_backups() {
    let mut repo = open_new();
    backup(&mut repo, &noise(300, 1), 1);
    backup(&mut repo, &noise(500, 2), 2);
    let report = repo.check().unwrap();
    assert!(report.is_clean());
    assert!(clean(&report));
    let empty = open_new();
    assert!(empty.check().unwrap().is_clean());
}

#[test]
fn check_refuses_waiting_blobs() {
    let mut repo = open_new();
    repo.save_data(b"waiting").unwrap();
    assert_eq!(repo.check().unwrap_err().kind, ErrorKind::Invalid);
    assert_eq!(repo.prune(50).unwrap_err().kind, ErrorKind::Invalid);
    assert_eq!(repo.pending_count(), 1);
}

#[test]
fn check_reports_missing_blobs() {
    let mut repo = open_new();
    let (_, _, ids) = backup(&mut repo, &noise(200, 3), 1);
    let packs = repo.backend().list(FileType::Pack).unwrap();
    assert_eq!(packs.len(), 1);
    let indexes = repo.backend().list(FileType::Index).unwrap();
    for f in indexes {
        repo.backend.remove(FileType::Index, &f).unwrap();
    }
    let reopened = Repository::open(repo.into_backend(), b"first secret").unwrap();
    assert_eq!(reopened.blob_count(), 0);
    let report = reopened.check().unwrap();
    assert!(!report.is_clean());
    assert_eq!(report.missing.len(), 1);
    assert!(report.corrupt.is_empty());
    assert!(!report.missing.contains(&ids[0]));
}

#[test]
fn check_reports_corrupt_blobs_and_goes_on() {
    let mut repo = open_new();
    let (_, root, ids) = backup(&mut repo, &noise(200, 4), 1);
    let loc = repo.locate(&ids[1]).unwrap();
    let mut pack = repo.backend().read_all(FileType::Pack, &loc.pack).unwrap();
    pack[loc.offset as usize + 40] ^= 0xff;
    repo.backend.remove(FileType::Pack, &loc.pack).unwrap();
    repo.backend.write(FileType::Pack, &loc.pack, &pack).unwrap();
    let report = repo.check().unwrap();
    assert_eq!(report.corrupt, vec![ids[1]]);
    assert!(report.missing.is_empty());
    assert!(report.unreadable.is_empty());
    assert_eq!(repo.load_tree(&root).unwrap().len(), 1);
}

#[test]
fn check_reports_unreadable_snapshots() {
    let mut repo = open_new();
    let (sid, _, _) = backup(&mut repo, &noise(100, 5), 1);
    let bytes = repo.backend().read_all(FileType::Snapshot, &sid).unwrap();
    repo.backend.remove(FileType::Snapshot, &sid).unwrap();
    repo.backend.write(FileType::Snapshot, &sid, &bytes[..bytes.len() - 1]).unwrap();
    let report = repo.check().unwrap();
    assert_eq!(report.unreadable, vec![sid]);
    assert_eq!(repo.prune(50).unwrap_err().kind, ErrorKind::Corrupt);
}

#[test]
fn reach_marks_what_it_finds() {
    let mut repo = open_new();
    let (_, root, ids) = backup(&mut repo, &noise(130, 6), 1);
    let other = repo.save_data(b"unreferenced").unwrap();
    repo.flush().unwrap();
    let absent = Id::of(b"absent");
    let seen = repo.reach(&vec![root, absent]).unwrap();
    assert_eq!(seen.len(), 2 + ids.len() + 1);
    assert_eq!(seen.get(&root), Some(&Mark::Held));
    assert_eq!(seen.get(&absent), Some(&Mark::Absent));
    for id in &ids {
        assert_eq!(seen.get(id), Some(&Mark::Held));
    }
    assert_eq!(seen.get(&other), None);
    assert_eq!(repo.reach(&Vec::new()).unwrap().len(), 0);
}

#[test]
fn packs_are_classified_by_their_use() {
    assert_eq!(classify(0, 0, 1000, 50), PackAction::Delete);
    assert_eq!(classify(0, 500, 1000, 0), PackAction::Delete);
    assert_eq!(classify(3, 499, 1000, 50), PackAction::Repack);
    assert_eq!(classify(3, 500, 1000, 50), PackAction::Keep);
    assert_eq!(classify(1, 1, 1000, 0), PackAction::Keep);
    assert_eq!(classify(1, 999, 1000, 100), PackAction::Repack);
    assert_eq!(classify(1, 1000, 1000, 100), PackAction::Keep);
    assert_eq!(classify(1, u64::MAX, u64::MAX, 100), PackAction::Keep);
    assert_eq!(classify(1, u64::MAX - 1, u64::MAX, 255), PackAction::Repack);
}

#[test]
fn prune_removes_what_no_snapshot_reaches() {
    let mut repo = open_new();
    let a = noise(300, 7);
    let b = noise(300, 8);
    let (first, _, ids_a) = backup(&mut repo, &a, 1);
    let (_, root_b, ids_b) = backup(&mut repo, &b, 2);
    assert_eq!(count(&repo, FileType::Pack), 2);
    let before = repo.blob_count();
    repo.forget(&first).unwrap();
    assert_eq!(repo.blob_count(), before);

    let summary = repo.prune(50).unwrap();
    assert_eq!(summary.count(PackAction::Delete), 1);
    assert_eq!(summary.count(PackAction::Repack), 0);
    assert_eq!(summary.count(PackAction::Keep), 1);
    assert_eq!(summary.packs.len(), 2);
    assert_eq!(summary.blobs, ids_b.len() + 2);
    assert_eq!(repo.blob_count(), ids_b.len() + 2);
    assert_eq!(count(&repo, FileType::Pack), 1);
    assert_eq!(count(&repo, FileType::Index), 1);
    for id in &ids_a {
        assert!(repo.locate(id).is_none());
    }
    assert!(repo.check().unwrap().is_clean());
    assert_eq!(repo.load_file(&ids_b).unwrap(), b);
    assert_eq!(repo.load_tree(&root_b).unwrap().len(), 1);

    let reopened = Repository::open(repo.into_backend(), b"first secret").unwrap();
    assert_eq!(reopened.blob_count(), ids_b.len() + 2);
    assert!(reopened.check().unwrap().is_clean());
    assert_eq!(reopened.load_file(&ids_b).unwrap(), b);
}

#[test]
fn prune_repacks_packs_that_are_mostly_dead() {
    let mut repo = open_new();
    let a = noise(640, 9);
    let b = noise(64, 10);
    let ids_a = repo.save_file(&a).unwrap();
    let ids_b = repo.save_file(&b).unwrap();
    let tree_a = repo.save_tree(&vec![file("a", ids_a.clone())]).unwrap();
    let tree_b = repo.save_tree(&vec![file("b", ids_b.clone())]).unwrap();
    let one = repo.commit_snapshot(&snap(tree_a, 1)).unwrap();
    repo.commit_snapshot(&snap(tree_b, 2)).unwrap();
    assert_eq!(count(&repo, FileType::Pack), 1);
    let old_pack = repo.locate(&ids_b[0]).unwrap().pack;
    let old_size = repo.backend().size(FileType::Pack, &old_pack).unwrap();
    repo.forget(&one).unwrap();

    let plan = repo.plan_prune(50).unwrap();
    assert_eq!(plan.packs.len(), 1);
    assert_eq!(plan.packs[0].pack, old_pack);
    assert_eq!(plan.packs[0].live.blobs, 2);
    assert_eq!(plan.packs[0].action, PackAction::Repack);
    assert_eq!(plan.reach.len(), 2);

    let summary = repo.prune(50).unwrap();
    assert_eq!(summary.count(PackAction::Repack), 1);
    assert_eq!(summary.packs[0].pack, old_pack);
    assert_eq!(summary.packs[0].size, old_size);
    assert_eq!(summary.packs.len(), 1);
    assert_eq!(summary.blobs, 2);
    let packs = repo.backend().list(FileType::Pack).unwrap();
    assert_eq!(packs.len(), 1);
    assert_ne!(packs[0], old_pack);
    assert_eq!(repo.locate(&ids_b[0]).unwrap().pack, packs[0]);
    assert_eq!(repo.locate(&tree_b).unwrap().kind, BlobKind::Tree);
    assert!(repo.locate(&ids_a[0]).is_none());
    assert!(repo.check().unwrap().is_clean());
    assert_eq!(repo.load_file(&ids_b).unwrap(), b);
    let smaller = repo.backend().size(FileType::Pack, &packs[0]).unwrap();
    assert!(smaller < old_size);
}

#[test]
fn prune_keeps_packs_above_the_threshold() {
    let mut repo = open_new();
    let ids_a = repo.save_file(&noise(64, 11)).unwrap();
    let ids_b = repo.save_file(&noise(640, 12)).unwrap();
    let tree_a = repo.save_tree(&vec![file("a", ids_a.clone())]).unwrap();
    let tree_b = repo.save_tree(&vec![file("b", ids_b.clone())]).unwrap();
    let one = repo.commit_snapshot(&snap(tree_a, 1)).unwrap();
    repo.commit_snapshot(&snap(tree_b, 2)).unwrap();
    let pack = repo.locate(&ids_b[0]).unwrap().pack;
    repo.forget(&one).unwrap();
    let summary = repo.prune(50).unwrap();
    assert_eq!(summary.count(PackAction::Keep), 1);
    assert_eq!(summary.packs.len(), 1);
    assert_eq!(repo.backend().list(FileType::Pack).unwrap(), vec![pack]);
    assert!(repo.locate(&ids_a[0]).is_none());
    assert!(repo.locate(&tree_a).is_none());
    assert_eq!(repo.blob_count(), ids_b.len() + 1);
    assert!(repo.check().unwrap().is_clean());
}

#[test]
fn prune_twice_changes_nothing_more() {
    let mut repo = open_new();
    let (first, _, _) = backup(&mut repo, &noise(300, 13), 1);
    let (_, _, ids) = backup(&mut repo, &noise(200, 14), 2);
    repo.forget(&first).unwrap();
    repo.prune(0).unwrap();
    let packs = repo.backend().list(FileType::Pack).unwrap();
    let blobs = repo.blob_count();
    let summary = repo.prune(0).unwrap();
    assert_eq!(summary.count(PackAction::Keep), summary.packs.len());
    assert_eq!(repo.backend().list(FileType::Pack).unwrap(), packs);
    assert_eq!(repo.blob_count(), blobs);
    assert_eq!(count(&repo, FileType::Index), 1);
    assert_eq!(repo.load_file(&ids).unwrap(), noise(200, 14));
}

#[test]
fn prune_stops_where_a_reachable_blob_is_missing() {
    let mut repo = open_new();
    let (_, _, _) = backup(&mut repo, &noise(100, 15), 1);
    for f in repo.backend().list(FileType::Index).unwrap() {
        repo.backend.remove(FileType::Index, &f).unwrap();
    }
    let packs = count(&repo, FileType::Pack);
    let e = repo.prune(50).unwrap_err();
    assert_eq!(e.kind, ErrorKind::NotFound);
    assert_eq!(count(&repo, FileType::Pack), packs);
}

#[test]
fn a_crash_after_the_index_commit_leaves_a_clean_repository() {
    let mut repo = open_new();
    let a = noise(640, 16);
    let b = noise(64, 17);
    let ids_a = repo.save_file(&a).unwrap();
    let ids_b = repo.save_file(&b).unwrap();
    let tree_a = repo.save_tree(&vec![file("a", ids_a.clone())]).unwrap();
    let tree_b = repo.save_tree(&vec![file("b", ids_b.clone())]).unwrap();
    let one = repo.commit_snapshot(&snap(tree_a, 1)).unwrap();
    repo.commit_snapshot(&snap(tree_b, 2)).unwrap();
    repo.forget(&one).unwrap();

    let plan = repo.plan_prune(50).unwrap();
    let live = repo.repack(&plan).unwrap();
    let after_repack = repo.backend().clone();
    let committed = repo.commit_index(live).unwrap();
    let after_commit = repo.backend().clone();
    repo.drop_indexes(&plan.files, &committed).unwrap();
    let after_indexes = repo.backend().clone();

    for crashed in [after_repack, after_commit, after_indexes] {
        let reopened = Repository::open(crashed, b"first secret").unwrap();
        let report = reopened.check().unwrap();
        assert!(report.is_clean());
        assert_eq!(reopened.load_file(&ids_b).unwrap(), b);
        let mut resumed = reopened;
        resumed.prune(50).unwrap();
        assert!(resumed.check().unwrap().is_clean());
        assert_eq!(resumed.load_file(&ids_b).unwrap(), b);
        assert_eq!(resumed.backend().list(FileType::Pack).unwrap().len(), 1);
        assert_eq!(resumed.blob_count(), 2);
    }
}

#[test]
fn repair_index_rebuilds_the_index_from_the_packs() {
    let mut repo = open_new();
    let a = noise(300, 20);
    let (_, root, ids) = backup(&mut repo, &a, 1);
    let orphan = repo.save_data(b"in a pack, in no snapshot").unwrap();
    repo.flush().unwrap();
    let blobs = repo.blob_count();
    for f in repo.backend().list(FileType::Index).unwrap() {
        repo.backend.remove(FileType::Index, &f).unwrap();
    }
    let mut lost = Repository::open(repo.into_backend(), b"first secret").unwrap();
    assert_eq!(lost.blob_count(), 0);
    assert!(!lost.check().unwrap().is_clean());

    let repair = lost.repair_index().unwrap();
    assert_eq!(repair.blobs, blobs);
    assert!(repair.unreadable.is_empty());
    assert_eq!(lost.blob_count(), blobs);
    assert_eq!(count(&lost, FileType::Index), 1);
    assert!(lost.check().unwrap().is_clean());
    assert_eq!(lost.load_file(&ids).unwrap(), a);
    assert_eq!(lost.load_tree(&root).unwrap().len(), 1);
    assert_eq!(lost.load_blob(&orphan).unwrap(), b"in a pack, in no snapshot");

    let again = Repository::open(lost.into_backend(), b"first secret").unwrap();
    assert_eq!(again.blob_count(), blobs);
    assert!(again.check().unwrap().is_clean());
}

#[test]
fn repair_index_drops_stale_entries_and_names_bad_packs() {
    let mut repo = open_new();
    let (_, _, ids) = backup(&mut repo, &noise(128, 21), 1);
    let (_, _, more) = backup(&mut repo, &noise(128, 22), 2);
    let gone = repo.locate(&ids[0]).unwrap().pack;
    let hurt = repo.locate(&more[0]).unwrap().pack;
    assert_ne!(gone, hurt);
    repo.backend.remove(FileType::Pack, &gone).unwrap();
    let mut bytes = repo.backend().read_all(FileType::Pack, &hurt).unwrap();
    let last = bytes.len() - 9;
    bytes[last] ^= 1;
    repo.backend.remove(FileType::Pack, &hurt).unwrap();
    repo.backend.write(FileType::Pack, &hurt, &bytes).unwrap();

    let repair = repo.repair_index().unwrap();
    assert_eq!(repair.blobs, 0);
    assert_eq!(repair.unreadable, vec![hurt]);
    assert!(repo.locate(&ids[0]).is_none());
    assert!(repo.locate(&more[0]).is_none());
    assert_eq!(count(&repo, FileType::Pack), 1);
    let report = repo.check().unwrap();
    assert_eq!(report.missing.len(), 2);
}

#[test]
fn read_header_lists_the_blobs_of_a_pack() {
    let mut repo = open_new();
    let one = repo.save_data(b"one").unwrap();
    let two = repo.save_data(b"two two").unwrap();
    repo.flush().unwrap();
    let pack = repo.locate(&one).unwrap().pack;
    let header = repo.read_header(&pack).unwrap().unwrap();
    assert_eq!(header.len(), 2);
    assert_eq!(header[0].id, one);
    assert_eq!(header[1].id, two);
    assert_eq!(header[0].loc.pack, Id::zero());
    assert_eq!(header[0].loc.offset, 0);
    assert_eq!(header[0].loc.length, 3 + 1 + 40);
    assert_eq!(header[1].loc.offset, 44);
    assert_eq!(header[1].loc.length, 7 + 1 + 40);
    assert_eq!(header[0].loc.kind, BlobKind::Data);
    let e = repo.read_header(&Id::of(b"no such pack")).unwrap_err();
    assert_eq!(e.kind, ErrorKind::NotFound);
    repo.backend.write(FileType::Pack, &Id::zero(), b"short").unwrap();
    assert_eq!(repo.read_header(&Id::zero()).unwrap(), None);
}

#[test]
fn repair_snapshots_finds_and_removes_damaged_snapshots() {
    let mut repo = open_new();
    let (good, _, keep) = backup(&mut repo, &noise(128, 23), 1);
    let (bad, _, ids) = backup(&mut repo, &noise(128, 24), 2);
    let pack = repo.locate(&ids[0]).unwrap().pack;
    assert_ne!(pack, repo.locate(&keep[0]).unwrap().pack);
    repo.backend.remove(FileType::Pack, &pack).unwrap();
    repo.repair_index().unwrap();

    let found = repo.repair_snapshots(false).unwrap();
    assert_eq!(found, vec![bad]);
    assert_eq!(count(&repo, FileType::Snapshot), 2);
    assert!(!repo.check().unwrap().is_clean());

    let found = repo.repair_snapshots(true).unwrap();
    assert_eq!(found, vec![bad]);
    assert_eq!(repo.snapshot_ids().unwrap(), vec![good]);
    assert!(repo.check().unwrap().is_clean());
    assert!(repo.repair_snapshots(true).unwrap().is_empty());
    assert_eq!(repo.load_file(&keep).unwrap(), noise(128, 23));
}

#[test]
fn prune_repacks_into_several_packs() {
    let mut repo = open_new();
    let keep = noise(64 * 12, 30);
    let drop = noise(64 * 40, 31);
    let ids_keep = repo.save_file(&keep).unwrap();
    let ids_drop = repo.save_file(&drop).unwrap();
    let tree_keep = repo.save_tree(&vec![file("keep", ids_keep.clone())]).unwrap();
    let tree_drop = repo.save_tree(&vec![file("drop", ids_drop.clone())]).unwrap();
    let gone = repo.commit_snapshot(&snap(tree_drop, 1)).unwrap();
    repo.commit_snapshot(&snap(tree_keep, 2)).unwrap();
    assert_eq!(count(&repo, FileType::Pack), 1);
    repo.forget(&gone).unwrap();
    repo.pack_limit = 400;
    let summary = repo.prune(90).unwrap();
    assert_eq!(summary.count(PackAction::Repack), 1);
    let packs = count(&repo, FileType::Pack);
    assert!(packs >= 3, "{} packs", packs);
    assert_eq!(count(&repo, FileType::Index), 1);
    assert_eq!(repo.blob_count(), 13);
    assert!(repo.check().unwrap().is_clean());
    assert_eq!(repo.load_file(&ids_keep).unwrap(), keep);
    let reopened = Repository::open(repo.into_backend(), b"first secret").unwrap();
    assert!(reopened.check().unwrap().is_clean());
    assert_eq!(reopened.load_file(&ids_keep).unwrap(), keep);
}

#[test]
fn mend_snapshots_drops_what_is_damaged_and_keeps_the_rest() {
    let mut repo = open_new();
    let a = noise(200, 40);
    let b = noise(200, 41);
    let ids_a = repo.save_file(&a).unwrap();
    repo.flush().unwrap();
    let ids_b = repo.save_file(&b).unwrap();
    repo.flush().unwrap();
    let inner = repo
        .save_tree(&vec![file("a", ids_a.clone()), file("b", ids_b.clone())])
        .unwrap();
    let lost = repo.save_tree(&vec![file("only b", ids_b.clone())]).unwrap();
    let root = repo.save_tree(&vec![dir("both", inner), dir("lost", lost)]).unwrap();
    let old = repo.commit_snapshot(&snap(root, 7)).unwrap();
    let (fine, _, ids_c) = backup(&mut repo, &noise(100, 42), 8);

    let pack_b = repo.locate(&ids_b[0]).unwrap().pack;
    assert_ne!(pack_b, repo.locate(&ids_a[0]).unwrap().pack);
    repo.backend.remove(FileType::Pack, &pack_b).unwrap();
    repo.repair_index().unwrap();
    assert_eq!(repo.check().unwrap().missing.len(), ids_b.len());

    let mended = repo.mend_snapshots(16).unwrap();
    assert_eq!(mended.len(), 1);
    assert_eq!(mended[0].old, old);
    let new = mended[0].new.unwrap();
    assert_ne!(new, old);
    let mut left = repo.snapshot_ids().unwrap();
    left.sort();
    let mut want = vec![fine, new];
    want.sort();
    assert_eq!(left, want);
    assert!(repo.check().unwrap().is_clean());

    let snapshot = repo.load_snapshot(&new).unwrap();
    assert_eq!(snapshot.time, 7);
    let top = repo.load_tree(&snapshot.tree).unwrap();
    assert_eq!(top.len(), 2);
    assert_eq!(top[0].name, b"both");
    assert_eq!(top[1].name, b"lost");
    let both = repo.load_tree(&top[0].subtree.unwrap()).unwrap();
    assert_eq!(both.len(), 1);
    assert_eq!(both[0].name, b"a");
    assert_eq!(repo.load_file(&both[0].content).unwrap(), a);
    assert!(repo.load_tree(&top[1].subtree.unwrap()).unwrap().is_empty());
    assert_eq!(repo.load_file(&ids_c).unwrap(), noise(100, 42));
    assert!(repo.mend_snapshots(16).unwrap().is_empty());
}

#[test]
fn mend_snapshots_removes_what_cannot_be_mended() {
    let mut repo = open_new();
    let (deep, root, _) = backup(&mut repo, &noise(100, 43), 1);
    let (bad, _, _) = backup(&mut repo, &noise(100, 44), 2);
    let bytes = repo.backend().read_all(FileType::Snapshot, &bad).unwrap();
    repo.backend.remove(FileType::Snapshot, &bad).unwrap();
    repo.backend.write(FileType::Snapshot, &bad, &bytes[..50]).unwrap();
    let mended = repo.mend_snapshots(16).unwrap();
    assert_eq!(mended.len(), 1);
    assert_eq!((mended[0].old, mended[0].new), (bad, None));
    assert_eq!(repo.snapshot_ids().unwrap(), vec![deep]);
    assert_eq!(repo.mend_tree(&root, 0).unwrap(), None);
    assert_eq!(repo.mend_tree(&root, 2).unwrap(), Some(root));
    assert_eq!(repo.mend_tree(&Id::of(b"nothing"), 9).unwrap(), None);
    assert_eq!(repo.pending_count(), 0);
    assert!(repo.check().unwrap().is_clean());
    assert_eq!(repo.mend_tree(&root, 1).unwrap(), Some(Id::of(b"")));
}

#[test]
fn phases_are_told_apart() {
    let all = [
        Phase::Scanning,
        Phase::ComputingReachability,
        Phase::Planning,
        Phase::Repacking,
        Phase::Deleting,
        Phase::Done,
    ];
    for (i, a) in all.iter().enumerate() {
        for (j, b) in all.iter().enumerate() {
            assert_eq!(a == b, i == j);
        }
    }
}

#[test]
fn mend_tree_keeps_the_nodes_whose_content_is_there() {
    let mut repo = open_new();
    let a = noise(200, 50);
    let ids_a = repo.save_file(&a).unwrap();
    repo.flush().unwrap();
    let ids_b = repo.save_file(&noise(200, 51)).unwrap();
    repo.flush().unwrap();
    let low = repo.save_tree(&vec![file("kept", ids_a.clone())]).unwrap();
    let tree = repo
        .save_tree(&vec![
            file("a", ids_a.clone()),
            file("b", ids_b.clone()),
            dir("c", low),
            file("d", Vec::new()),
        ])
        .unwrap();
    repo.flush().unwrap();
    let pack_b = repo.locate(&ids_b[0]).unwrap().pack;
    repo.backend.remove(FileType::Pack, &pack_b).unwrap();
    repo.repair_index().unwrap();
    let blobs = repo.blob_count();

    // One level deep the directory cannot be mended, and leaves.
    let flat = repo.mend_tree(&tree, 1).unwrap().unwrap();
    let nodes = repo.load_tree(&flat).unwrap();
    assert_eq!(nodes.len(), 2);
    assert!(nodes[0].same(&file("a", ids_a.clone())));
    assert!(nodes[1].same(&file("d", Vec::new())));

    // Two levels deep it stays, with its tree as it was.
    let deep = repo.mend_tree(&tree, 2).unwrap().unwrap();
    let nodes = repo.load_tree(&deep).unwrap();
    assert_eq!(nodes.len(), 3);
    assert!(nodes[0].same(&file("a", ids_a.clone())));
    assert!(nodes[1].same(&dir("c", low)));
    assert!(nodes[2].same(&file("d", Vec::new())));
    assert_eq!(repo.kind_of(&deep), Some(BlobKind::Tree));
    assert_eq!(repo.blob_count() + repo.pending_count(), blobs + 2);

    // A data blob is no tree to mend.
    assert_eq!(repo.mend_tree(&ids_a[0], 5).unwrap(), None);
}

#[test]
fn prune_says_why_it_stops() {
    // An index file that cannot be read.
    let mut repo = open_new();
    let (_, _, ids) = backup(&mut repo, &noise(100, 60), 1);
    repo.backend.write(FileType::Index, &Id::of(b"torn"), b"no index file").unwrap();
    let e = repo.prune(50).unwrap_err();
    assert_eq!(e.kind, ErrorKind::Corrupt);
    assert_eq!(e.context, Some((FileType::Index, Id::of(b"torn"))));
    repo.backend.remove(FileType::Index, &Id::of(b"torn")).unwrap();
    assert!(repo.prune(50).is_ok());

    // A reachable blob whose pack is gone.
    let (_, _, more) = backup(&mut repo, &noise(100, 61), 2);
    let pack = repo.locate(&more[0]).unwrap().pack;
    assert_ne!(pack, repo.locate(&ids[0]).unwrap().pack);
    repo.backend.remove(FileType::Pack, &pack).unwrap();
    let packs = count(&repo, FileType::Pack);
    let indexes = count(&repo, FileType::Index);
    let e = repo.prune(50).unwrap_err();
    assert!(e.kind == ErrorKind::NotFound || e.kind == ErrorKind::Corrupt);
    assert_eq!(count(&repo, FileType::Pack), packs);
    assert_eq!(count(&repo, FileType::Index), indexes);

    // Blobs that wait.
    let mut repo = open_new();
    repo.save_data(b"waits").unwrap();
    assert_eq!(repo.prune(50).unwrap_err().kind, ErrorKind::Invalid);
    assert_eq!(repo.repair_index().unwrap_err().kind, ErrorKind::Invalid);
    assert_eq!(repo.repair_snapshots(true).unwrap_err().kind, ErrorKind::Invalid);
    assert_eq!(repo.mend_snapshots(4).unwrap_err().kind, ErrorKind::Invalid);
    assert_eq!(repo.check().unwrap_err().kind, ErrorKind::Invalid);
    assert_eq!(repo.pending_count(), 1);
    repo.flush().unwrap();
    assert!(repo.repair_snapshots(true).unwrap().is_empty());
}

fn copy_index(repo: &Repository<MemoryBackend>) -> IdMap<Location> {
    let mut copy: IdMap<Location> = IdMap::new();
    for id in repo.index.keys() {
        copy.insert(*id, *repo.index.get(id).unwrap());
    }
    copy
}

#[test]
fn check_holds_every_index_entry_against_the_index() {
    let mut repo = open_new();
    let (_, _, ids) = backup(&mut repo, &noise(100, 80), 1);
    assert!(repo.check().unwrap().is_clean());
    let good = repo.locate(&ids[0]).unwrap();
    // A second index file lists the first chunk at another place.
    let shadow = Location { pack: good.pack, offset: good.offset + 1, length: good.length, kind: good.kind };
    let mut other: IdMap<Location> = IdMap::new();
    other.insert(ids[0], shadow);
    let index = copy_index(&repo);
    let file = repo.write_index(other).unwrap();
    repo.index = index;
    let report = repo.check().unwrap();
    assert!(report.missing.is_empty() && report.corrupt.is_empty());
    assert_eq!(report.stray, vec![Entry { id: ids[0], loc: shadow }]);
    assert!(!report.is_clean());
    assert!(repo.stray_entries().unwrap().len() == 1);
    // An entry that names the same place twice is no stray.
    repo.backend.remove(FileType::Index, &file).unwrap();
    let mut same: IdMap<Location> = IdMap::new();
    same.insert(ids[0], good);
    let index = copy_index(&repo);
    repo.write_index(same).unwrap();
    repo.index = index;
    assert!(repo.check().unwrap().is_clean());
    assert!(repo.entry_agrees(&Entry { id: ids[0], loc: good }).unwrap());
    assert!(!repo.entry_agrees(&Entry { id: Id::of(b"none"), loc: good }).unwrap());
    assert_eq!(repo.blob_in(&good).unwrap().unwrap(), repo.load_blob(&ids[0]).unwrap());
    assert_eq!(repo.blob_in(&shadow).unwrap(), None);
}

#[test]
fn prune_leaves_every_place_inside_its_pack() {
    let mut repo = open_new();
    let (_, _, ids) = backup(&mut repo, &noise(300, 81), 1);
    // The index names a place beyond the end of a pack that the prune keeps.
    let good = repo.locate(&ids[0]).unwrap();
    let size = repo.backend().size(FileType::Pack, &good.pack).unwrap();
    let mut index = copy_index(&repo);
    index.insert(ids[0], Location { offset: size, ..good });
    for f in repo.backend().list(FileType::Index).unwrap() {
        repo.backend.remove(FileType::Index, &f).unwrap();
    }
    repo.write_index(index).unwrap();
    let packs = count(&repo, FileType::Pack);
    let e = repo.prune(0).unwrap_err();
    assert_eq!(e.kind, ErrorKind::Corrupt);
    assert_eq!(e.context, Some((FileType::Pack, good.pack)));
    assert_eq!(count(&repo, FileType::Pack), packs);
    assert_eq!(count(&repo, FileType::Snapshot), 1);
    assert_eq!(count(&repo, FileType::Key), 1);
    assert_eq!(count(&repo, FileType::Config), 1);
}

#[test]
fn a_prune_touches_neither_keys_nor_snapshots() {
    let mut repo = open_new();
    let (s1, _, _) = backup(&mut repo, &noise(300, 82), 1);
    let (s2, _, _) = backup(&mut repo, &noise(300, 83), 2);
    repo.forget(&s1).unwrap();
    let keys = repo.backend().list(FileType::Key).unwrap();
    let config = repo.backend().read_all(FileType::Config, &Id::zero()).unwrap();
    repo.prune(100).unwrap();
    assert_eq!(repo.backend().list(FileType::Key).unwrap(), keys);
    assert_eq!(repo.backend().read_all(FileType::Config, &Id::zero()).unwrap(), config);
    assert_eq!(repo.backend().list(FileType::Snapshot).unwrap(), vec![s2]);
    let again = Repository::open(repo.into_backend(), b"first secret").unwrap();
    assert!(again.check().unwrap().is_clean());
}

#[test]
fn mend_tree_mends_the_trees_of_the_directories() {
    let mut repo = open_new();
    let ids_a = repo.save_file(&noise(200, 84)).unwrap();
    repo.flush().unwrap();
    let ids_b = repo.save_file(&noise(200, 85)).unwrap();
    repo.flush().unwrap();
    let low = repo.save_tree(&vec![file("gone", ids_b.clone()), file("kept", ids_a.clone())]).unwrap();
    let fine = repo.save_tree(&vec![file("kept", ids_a.clone())]).unwrap();
    let top = repo.save_tree(&vec![dir("fine", fine), dir("low", low)]).unwrap();
    repo.flush().unwrap();
    let pack_b = repo.locate(&ids_b[0]).unwrap().pack;
    repo.backend.remove(FileType::Pack, &pack_b).unwrap();
    repo.repair_index().unwrap();

    let mended = repo.mend_tree(&top, 2).unwrap().unwrap();
    let nodes = repo.load_tree(&mended).unwrap();
    assert_eq!(nodes.len(), 2);
    // The tree that was whole is named as it was.
    assert!(nodes[0].same(&dir("fine", fine)));
    // The damaged one is named by its mended tree, which holds what is left.
    assert_eq!(nodes[1].name, b"low");
    let below = repo.load_tree(&nodes[1].subtree.unwrap()).unwrap();
    assert_eq!(below.len(), 1);
    assert!(below[0].same(&file("kept", ids_a.clone())));
    // Here the mended tree of `low` is the tree `fine`.
    assert_eq!(nodes[1].subtree, Some(fine));
}
