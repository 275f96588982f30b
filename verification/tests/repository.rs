use rustic::archive::Source;
use rustic::backend::{Backend, MemoryBackend};
use rustic::blob::BlobKind;
use rustic::chunker::ChunkerParams;
use rustic::compress::Compression;
use rustic::crypto::KdfParams;
use rustic::error::{ErrorKind, FileType};
use rustic::id::Id;
use rustic::repo::{Config, Repository, FORMAT_VERSION};
use rustic::snapshots::latest;
use rustic::tree::{Node, NodeKind, Snapshot};

fn quick() -> KdfParams {
    KdfParams { log_n: 4, r: 1, p: 1 }
}

fn small_chunks() -> Config {
    Config {
        version: FORMAT_VERSION,
        chunker: ChunkerParams { min_size: 64, avg_size: 16, max_size: 64 },
        compression: Compression::Deflate(6),
    }
}

fn fresh(password: &[u8]) -> Repository<MemoryBackend> {
    Repository::init(MemoryBackend::new(), password, quick(), small_chunks()).unwrap()
}

fn varied(len: usize, seed: u8) -> Vec<u8> {
    let mut x: u32 = 0x1234_5678 ^ (seed as u32);
    (0..len)
        .map(|_| {
            x = x.wrapping_mul(1_664_525).wrapping_add(1_013_904_223);
            (x >> 24) as u8
        })
        .collect()
}

fn file_node(name: &str, size: u64, content: Vec<Id>) -> Node {
    Node {
        name: name.as_bytes().to_vec(),
        kind: NodeKind::File,
        mode: 0o644,
        uid: 1000,
        gid: 1000,
        mtime: 1_700_000_000,
        size,
        content,
        subtree: None,
        target: Vec::new(),
    }
}

fn snapshot_of(tree: Id, time: u64) -> Snapshot {
    Snapshot {
        time,
        host: b"host".to_vec(),
        paths: vec![b"/data".to_vec()],
        tags: vec![b"daily".to_vec(), b"test".to_vec()],
        parent: None,
        tree,
    }
}

fn count(repo: &Repository<MemoryBackend>, file_type: FileType) -> usize {
    repo.backend().list(file_type).unwrap().len()
}

#[test]
fn init_writes_key_and_config() {
    let repo = fresh(b"first secret");
    assert_eq!(count(&repo, FileType::Key), 1);
    assert_eq!(count(&repo, FileType::Config), 1);
    assert_eq!(count(&repo, FileType::Pack), 0);
    assert_eq!(count(&repo, FileType::Index), 0);
    assert_eq!(count(&repo, FileType::Snapshot), 0);
    assert_eq!(repo.blob_count(), 0);
    assert_eq!(repo.config(), small_chunks());
    let stored = repo.backend().read_all(FileType::Config, &Id::zero()).unwrap();
    assert_eq!(stored.len(), 34);
    assert_eq!(Config::decode(&stored), Some(small_chunks()));
}

#[test]
fn init_refuses_a_backend_with_a_config() {
    let repo = fresh(b"first secret");
    let backend = repo.into_backend();
    let e = Repository::init(backend, b"first secret", quick(), small_chunks()).err().unwrap();
    assert_eq!(e.kind, ErrorKind::Conflict);
}

#[test]
fn init_refuses_invalid_settings() {
    let bad_kdf = KdfParams { log_n: 30, r: 1, p: 1 };
    let e = Repository::init(MemoryBackend::new(), b"p", bad_kdf, small_chunks()).err().unwrap();
    assert_eq!(e.kind, ErrorKind::Invalid);
    let mut bad = small_chunks();
    bad.chunker.min_size = 10;
    let e = Repository::init(MemoryBackend::new(), b"p", quick(), bad).err().unwrap();
    assert_eq!(e.kind, ErrorKind::Invalid);
    let mut bad = small_chunks();
    bad.compression = Compression::Deflate(11);
    let e = Repository::init(MemoryBackend::new(), b"p", quick(), bad).err().unwrap();
    assert_eq!(e.kind, ErrorKind::Invalid);
    let mut bad = small_chunks();
    bad.version = 2;
    let e = Repository::init(MemoryBackend::new(), b"p", quick(), bad).err().unwrap();
    assert_eq!(e.kind, ErrorKind::Invalid);
}

#[test]
fn open_needs_the_password() {
    let repo = fresh(b"first secret");
    let key = repo.master_key();
    let backend = repo.into_backend();
    let again = Repository::open(backend.clone(), b"first secret").unwrap();
    assert!(again.master_key() == key);
    assert_eq!(again.config(), small_chunks());
    let e = Repository::open(backend, b"wrong").err().unwrap();
    assert_eq!(e.kind, ErrorKind::AuthenticationFailed);
}

#[test]
fn open_needs_a_config() {
    let mut repo = fresh(b"first secret");
    repo.backend.remove(FileType::Config, &Id::zero()).unwrap();
    let e = Repository::open(repo.into_backend(), b"first secret").err().unwrap();
    assert_eq!(e.kind, ErrorKind::NotFound);
    assert_eq!(e.context, Some((FileType::Config, Id::zero())));
}

#[test]
fn key_add_and_remove() {
    let mut repo = fresh(b"first secret");
    let master = repo.master_key();
    let first = repo.find_key(b"first secret").unwrap().unwrap();
    let second = repo.add_key(b"second secret", &quick()).unwrap();
    assert_ne!(first, second);
    assert_eq!(repo.find_key(b"second secret").unwrap(), Some(second));
    assert_eq!(repo.find_key(b"third secret").unwrap(), None);
    let backend = repo.into_backend();

    let with_first = Repository::open(backend.clone(), b"first secret").unwrap();
    let with_second = Repository::open(backend.clone(), b"second secret").unwrap();
    assert!(with_first.master_key() == master);
    assert!(with_second.master_key() == master);

    let mut repo = with_second;
    repo.remove_key(&first).unwrap();
    let backend = repo.into_backend();
    let e = Repository::open(backend.clone(), b"first secret").err().unwrap();
    assert_eq!(e.kind, ErrorKind::AuthenticationFailed);
    let still = Repository::open(backend, b"second secret").unwrap();
    assert!(still.master_key() == master);
}

#[test]
fn the_last_key_stays() {
    let mut repo = fresh(b"first secret");
    let only = repo.find_key(b"first secret").unwrap().unwrap();
    let e = repo.remove_key(&only).unwrap_err();
    assert_eq!(e.kind, ErrorKind::Invalid);
    assert_eq!(count(&repo, FileType::Key), 1);
    let e = repo.add_key(b"second secret", &KdfParams { log_n: 0, r: 1, p: 1 }).unwrap_err();
    assert_eq!(e.kind, ErrorKind::Invalid);
}

#[test]
fn identical_files_share_their_blobs() {
    let mut repo = fresh(b"first secret");
    let a = varied(640, 1);
    let b = a.clone();
    let ids_a = repo.save_file(&a).unwrap();
    let ids_b = repo.save_file(&b).unwrap();
    assert_eq!(ids_a.len(), 10);
    assert_eq!(ids_a, ids_b);
    let mut unique = ids_a.clone();
    unique.sort();
    unique.dedup();
    assert_eq!(unique.len(), 10);
    assert_eq!(repo.pending_count(), 10);

    let nodes = vec![file_node("A", 640, ids_a.clone()), file_node("B", 640, ids_b.clone())];
    let tree = repo.save_tree(&nodes).unwrap();
    let sid = repo.commit_snapshot(&snapshot_of(tree, 1)).unwrap();

    assert_eq!(repo.pending_count(), 0);
    assert_eq!(repo.blob_count(), 11);
    assert_eq!(count(&repo, FileType::Pack), 1);
    assert_eq!(count(&repo, FileType::Index), 1);
    assert_eq!(count(&repo, FileType::Snapshot), 1);

    let loaded = repo.load_tree(&tree).unwrap();
    assert_eq!(loaded.len(), 2);
    assert_eq!(loaded, nodes);
    assert_eq!(loaded[0].content, loaded[1].content);
    assert_eq!(repo.load_file(&loaded[0].content).unwrap(), a);
    assert_eq!(repo.load_file(&loaded[1].content).unwrap(), b);
    assert_eq!(repo.load_snapshot(&sid).unwrap(), snapshot_of(tree, 1));
    for id in &ids_a {
        assert_eq!(repo.locate(id).unwrap().kind, BlobKind::Data);
    }
    assert_eq!(repo.locate(&tree).unwrap().kind, BlobKind::Tree);
}

#[test]
fn a_second_backup_writes_no_pack() {
    let mut repo = fresh(b"first secret");
    let a = varied(1000, 2);
    let ids = repo.save_file(&a).unwrap();
    let tree = repo.save_tree(&vec![file_node("a", 1000, ids.clone())]).unwrap();
    let first = repo.commit_snapshot(&snapshot_of(tree, 1)).unwrap();
    let packs = count(&repo, FileType::Pack);
    let indexes = count(&repo, FileType::Index);

    let ids2 = repo.save_file(&a).unwrap();
    let tree2 = repo.save_tree(&vec![file_node("a", 1000, ids2.clone())]).unwrap();
    let second = repo.commit_snapshot(&snapshot_of(tree2, 2)).unwrap();

    assert_eq!(ids, ids2);
    assert_eq!(tree, tree2);
    assert_ne!(first, second);
    assert_eq!(count(&repo, FileType::Pack), packs);
    assert_eq!(count(&repo, FileType::Index), indexes);
    assert_eq!(count(&repo, FileType::Snapshot), 2);
}

#[test]
fn content_round_trips() {
    let mut repo = fresh(b"first secret");
    for (len, seed) in [(0usize, 1u8), (1, 2), (63, 3), (64, 4), (65, 5), (128, 6), (5000, 7)] {
        let data = varied(len, seed);
        let ids = repo.save_file(&data).unwrap();
        assert_eq!(repo.load_file(&ids).unwrap(), data);
    }
    repo.flush().unwrap();
    let reopened = Repository::open(repo.into_backend(), b"first secret").unwrap();
    for (len, seed) in [(0usize, 1u8), (1, 2), (63, 3), (64, 4), (65, 5), (128, 6), (5000, 7)] {
        let data = varied(len, seed);
        let mut again = Repository::open(reopened.backend().clone(), b"first secret").unwrap();
        let ids = again.save_file(&data).unwrap();
        assert_eq!(again.pending_count(), 0);
        assert_eq!(reopened.load_file(&ids).unwrap(), data);
    }
}

#[test]
fn stored_bytes_do_not_show_the_content() {
    let mut repo = fresh(b"first secret");
    let secret = b"a very recognisable line of text that must not be stored in the clear!!".to_vec();
    let id = repo.save_data(&secret).unwrap();
    repo.flush().unwrap();
    let packs = repo.backend().list(FileType::Pack).unwrap();
    let pack = repo.backend().read_all(FileType::Pack, &packs[0]).unwrap();
    assert!(!pack.windows(16).any(|w| w == &secret[..16]));
    assert_eq!(repo.load_blob(&id).unwrap(), secret);
    assert_eq!(id, Id::of(&secret));
}

#[test]
fn missing_and_damaged_blobs_are_reported() {
    let mut repo = fresh(b"first secret");
    let id = repo.save_data(b"some data").unwrap();
    let e = repo.load_blob(&Id::of(b"never saved")).unwrap_err();
    assert_eq!(e.kind, ErrorKind::NotFound);
    repo.flush().unwrap();
    let loc = repo.locate(&id).unwrap();

    let pack = repo.backend().read_all(FileType::Pack, &loc.pack).unwrap();
    let mut damaged = pack.clone();
    damaged[loc.offset as usize + 30] ^= 1;
    repo.backend.remove(FileType::Pack, &loc.pack).unwrap();
    let e = repo.load_blob(&id).unwrap_err();
    assert_eq!(e.kind, ErrorKind::NotFound);
    assert_eq!(e.context, Some((FileType::Pack, loc.pack)));

    repo.backend.write(FileType::Pack, &loc.pack, &damaged).unwrap();
    let e = repo.load_blob(&id).unwrap_err();
    assert_eq!(e.kind, ErrorKind::Corrupt);
    assert_eq!(e.context, Some((FileType::Pack, loc.pack)));

    repo.backend.remove(FileType::Pack, &loc.pack).unwrap();
    repo.backend.write(FileType::Pack, &loc.pack, &pack[..10]).unwrap();
    let e = repo.load_blob(&id).unwrap_err();
    assert_eq!(e.kind, ErrorKind::Corrupt);
}

#[test]
fn trees_must_be_sorted_and_complete() {
    let mut repo = fresh(b"first secret");
    let ids = repo.save_file(b"content").unwrap();
    let unsorted = vec![file_node("b", 7, ids.clone()), file_node("a", 7, ids.clone())];
    assert_eq!(repo.save_tree(&unsorted).unwrap_err().kind, ErrorKind::Invalid);
    let twice = vec![file_node("a", 7, ids.clone()), file_node("a", 7, ids.clone())];
    assert_eq!(repo.save_tree(&twice).unwrap_err().kind, ErrorKind::Invalid);
    let dangling = vec![file_node("a", 7, vec![Id::of(b"nowhere")])];
    assert_eq!(repo.save_tree(&dangling).unwrap_err().kind, ErrorKind::NotFound);
    let sorted = vec![file_node("a", 7, ids.clone()), file_node("b", 7, ids.clone())];
    let tree = repo.save_tree(&sorted).unwrap();
    let mut dir = file_node("dir", 0, Vec::new());
    dir.kind = NodeKind::Dir;
    dir.subtree = Some(tree);
    let root = repo.save_tree(&vec![dir.clone()]).unwrap();
    assert_ne!(root, tree);
    assert_eq!(repo.load_tree(&root).unwrap(), vec![dir]);
    assert_eq!(repo.save_tree(&Vec::new()).unwrap(), Id::of(b""));
}

#[test]
fn snapshots_need_a_stored_tree() {
    let mut repo = fresh(b"first secret");
    let data = repo.save_data(b"not a tree").unwrap();
    let e = repo.commit_snapshot(&snapshot_of(data, 1)).unwrap_err();
    assert_eq!(e.kind, ErrorKind::NotFound);
    let e = repo.commit_snapshot(&snapshot_of(Id::of(b"nothing"), 1)).unwrap_err();
    assert_eq!(e.kind, ErrorKind::NotFound);
    assert_eq!(count(&repo, FileType::Snapshot), 0);
}

#[test]
fn snapshots_are_listed_and_forgotten() {
    let mut repo = fresh(b"first secret");
    let tree = repo.save_tree(&Vec::new()).unwrap();
    let one = repo.commit_snapshot(&snapshot_of(tree, 1)).unwrap();
    let two = repo.commit_snapshot(&snapshot_of(tree, 2)).unwrap();
    let e = repo.commit_snapshot(&snapshot_of(tree, 3));
    assert!(e.is_ok());
    let mut listed = repo.snapshots().unwrap();
    listed.sort_by_key(|(_, s)| s.time);
    assert_eq!(listed.len(), 3);
    assert_eq!(listed[0], (one, snapshot_of(tree, 1)));
    assert_eq!(listed[1], (two, snapshot_of(tree, 2)));
    repo.forget(&one).unwrap();
    assert_eq!(repo.snapshot_ids().unwrap().len(), 2);
    let e = repo.forget(&one).unwrap_err();
    assert_eq!(e.kind, ErrorKind::NotFound);
    let e = repo.load_snapshot(&one).unwrap_err();
    assert_eq!(e.kind, ErrorKind::NotFound);
    assert_eq!(e.context, Some((FileType::Snapshot, one)));
    assert_eq!(repo.blob_count(), 1);
}

#[test]
fn a_pack_is_written_where_enough_waits() {
    let mut repo = fresh(b"first secret");
    repo.pack_limit = 300;
    let data = varied(64 * 20, 30);
    let ids = repo.save_file(&data).unwrap();
    assert_eq!(ids.len(), 20);
    let packs = count(&repo, FileType::Pack);
    assert!(packs >= 3 && packs <= 5, "{} packs", packs);
    assert_eq!(count(&repo, FileType::Index), packs);
    assert!(repo.pending_count() < 5);
    assert_eq!(repo.load_file(&ids).unwrap(), data);
    repo.flush().unwrap();
    assert_eq!(repo.pending_count(), 0);
    assert_eq!(repo.blob_count(), 20);
    repo.flush().unwrap();
    assert_eq!(count(&repo, FileType::Pack), count(&repo, FileType::Index));
    let reopened = Repository::open(repo.into_backend(), b"first secret").unwrap();
    assert_eq!(reopened.blob_count(), 20);
    assert_eq!(reopened.load_file(&ids).unwrap(), data);
}

#[test]
fn a_repository_with_the_standard_settings_round_trips() {
    let mut repo = Repository::init(
        MemoryBackend::new(),
        b"a longer password",
        KdfParams::standard(),
        Config::standard(),
    )
    .unwrap();
    let mut data = varied(3_000_000, 31);
    data.extend(std::iter::repeat(b'z').take(1_000_000));
    let ids = repo.save_file(&data).unwrap();
    assert!(ids.len() >= 1 && ids.len() <= 8, "{} chunks", ids.len());
    repo.flush().unwrap();
    let packs = repo.backend().list(FileType::Pack).unwrap();
    let stored: u64 =
        packs.iter().map(|p| repo.backend().size(FileType::Pack, p).unwrap()).sum();
    assert!(stored < 3_200_000, "{} bytes stored", stored);
    let reopened = Repository::open(repo.into_backend(), b"a longer password").unwrap();
    assert_eq!(reopened.load_file(&ids).unwrap(), data);
    assert_eq!(reopened.config(), Config::standard());
}

#[test]
fn the_limits_of_sealing_are_fixed() {
    let repo = fresh(b"first secret");
    assert_eq!(rustic::crypto::MAX_MESSAGE, 0xffff_ffff);
    assert_eq!(rustic::crypto::OVERHEAD, 40);
    assert_eq!(repo.pending_count(), 0);
}

#[test]
fn a_small_blob_waits_and_nothing_is_written() {
    let mut repo = fresh(b"first secret");
    let before = repo.backend().count();
    let id = repo.save_data(b"a few bytes").unwrap();
    assert_eq!(id, Id::of(b"a few bytes"));
    assert_eq!(repo.pending_count(), 1);
    assert_eq!(repo.blob_count(), 0);
    assert_eq!(repo.backend().count(), before);
    let tree = repo.save_tree(&vec![file_node("f", 11, vec![id])]).unwrap();
    assert_eq!(repo.pending_count(), 2);
    assert_eq!(repo.backend().count(), before);
    assert!(repo.has(&tree));
    // Saving both again changes nothing.
    assert_eq!(repo.save_data(b"a few bytes").unwrap(), id);
    assert_eq!(repo.save_tree(&vec![file_node("f", 11, vec![id])]).unwrap(), tree);
    assert_eq!(repo.pending_count(), 2);
    assert_eq!(repo.backend().count(), before);
}

#[test]
fn a_snapshot_is_the_only_new_object_where_nothing_waits() {
    let mut repo = fresh(b"first secret");
    let tree = repo.save_tree(&Vec::new()).unwrap();
    repo.flush().unwrap();
    let packs = repo.backend().list(FileType::Pack).unwrap();
    let indexes = repo.backend().list(FileType::Index).unwrap();
    let before = repo.backend().count();
    let sid = repo.commit_snapshot(&snapshot_of(tree, 5)).unwrap();
    assert_eq!(repo.backend().count(), before + 1);
    assert_eq!(repo.backend().list(FileType::Pack).unwrap(), packs);
    assert_eq!(repo.backend().list(FileType::Index).unwrap(), indexes);
    assert_eq!(repo.backend().list(FileType::Snapshot).unwrap(), vec![sid]);
    let e = repo.commit_snapshot(&snapshot_of(Id::of(b"no tree"), 6)).unwrap_err();
    assert_eq!(e.kind, ErrorKind::NotFound);
    assert_eq!(repo.backend().count(), before + 1);
}

#[test]
fn a_backend_that_was_given_back_opens_again() {
    let mut repo = fresh(b"first secret");
    let id = repo.save_data(b"kept").unwrap();
    repo.flush().unwrap();
    let backend = repo.into_backend();
    let again = Repository::open(backend, b"first secret").unwrap();
    assert_eq!(again.load_blob(&id).unwrap(), b"kept".to_vec());
    let e = Repository::open(again.into_backend(), b"second secret").err().unwrap();
    assert_eq!(e.kind, ErrorKind::AuthenticationFailed);
}

fn source(name: &str, data: Vec<u8>) -> Source {
    Source { node: file_node(name, 0, Vec::new()), data }
}

#[test]
fn a_second_backup_names_the_same_tree_and_writes_no_pack() {
    let mut repo = fresh(b"first secret");
    let one = varied(64 * 9 + 5, 70);
    let two = varied(64 * 3, 71);
    let files = vec![source("a", one.clone()), source("b", two.clone()), source("c", Vec::new())];
    let s1 = repo.backup(&files, snapshot_of(Id::zero(), 1)).unwrap();
    let packs = repo.backend().list(FileType::Pack).unwrap();
    let indexes = repo.backend().list(FileType::Index).unwrap();
    let objects = repo.backend().count();
    let blobs = repo.blob_count();
    assert!(!packs.is_empty());
    assert_eq!(repo.pending_count(), 0);

    let s2 = repo.backup(&files, snapshot_of(Id::zero(), 2)).unwrap();
    assert_ne!(s1, s2);
    assert_eq!(repo.backend().list(FileType::Pack).unwrap(), packs);
    assert_eq!(repo.backend().list(FileType::Index).unwrap(), indexes);
    assert_eq!(repo.backend().count(), objects + 1);
    assert_eq!(repo.blob_count(), blobs);
    let first = repo.load_snapshot(&s1).unwrap();
    let second = repo.load_snapshot(&s2).unwrap();
    assert_eq!(first.tree, second.tree);
    assert_eq!((first.time, second.time), (1, 2));
    let mut listed = repo.snapshot_ids().unwrap();
    listed.sort();
    let mut want = vec![s1, s2];
    want.sort();
    assert_eq!(listed, want);

    let nodes = repo.load_tree(&first.tree).unwrap();
    assert_eq!(nodes.len(), 3);
    assert_eq!(nodes[0].name, b"a");
    assert_eq!(nodes[0].size, one.len() as u64);
    assert_eq!(nodes[0].content.len(), 10);
    assert_eq!(nodes[2].content.len(), 0);
    assert!(repo.check().unwrap().is_clean());
}

#[test]
fn a_backup_gives_its_files_back() {
    let mut repo = fresh(b"first secret");
    let one = varied(1000, 72);
    let files = vec![
        source("empty", Vec::new()),
        source("long", one.clone()),
        source("short", b"x".to_vec()),
    ];
    let sid = repo.backup(&files, snapshot_of(Id::zero(), 9)).unwrap();
    assert_eq!(repo.restore(&sid, b"long").unwrap(), one);
    assert_eq!(repo.restore(&sid, b"short").unwrap(), b"x".to_vec());
    assert_eq!(repo.restore(&sid, b"empty").unwrap(), Vec::<u8>::new());
    assert_eq!(repo.restore(&sid, b"other").unwrap_err().kind, ErrorKind::NotFound);
    assert_eq!(repo.restore(&Id::of(b"none"), b"long").unwrap_err().kind, ErrorKind::NotFound);
    let again = Repository::open(repo.into_backend(), b"first secret").unwrap();
    assert_eq!(again.restore(&sid, b"long").unwrap(), one);
}

#[test]
fn a_backup_needs_its_files_in_order() {
    let mut repo = fresh(b"first secret");
    let before = repo.backend().count();
    let files = vec![source("b", b"1".to_vec()), source("a", b"2".to_vec())];
    let e = repo.backup(&files, snapshot_of(Id::zero(), 1)).unwrap_err();
    assert_eq!(e.kind, ErrorKind::Invalid);
    let twice = vec![source("a", b"1".to_vec()), source("a", b"2".to_vec())];
    let e = repo.backup(&twice, snapshot_of(Id::zero(), 1)).unwrap_err();
    assert_eq!(e.kind, ErrorKind::Invalid);
    assert_eq!(repo.backend().list(FileType::Snapshot).unwrap().len(), 0);
    assert_eq!(repo.backend().count(), before);
    assert_eq!(repo.pending_count(), 0);
    // The tree of no files is the empty listing.
    let sid = repo.backup(&Vec::new(), snapshot_of(Id::zero(), 2)).unwrap();
    assert_eq!(repo.load_snapshot(&sid).unwrap().tree, Id::of(b""));
}

#[test]
fn open_says_what_cannot_be_read() {
    // A configuration that does not parse.
    let mut backend = fresh(b"first secret").into_backend();
    backend.remove(FileType::Config, &Id::zero()).unwrap();
    backend.write(FileType::Config, &Id::zero(), b"short").unwrap();
    let e = Repository::open(backend, b"first secret").err().unwrap();
    assert_eq!(e.kind, ErrorKind::Corrupt);
    assert_eq!(e.context, Some((FileType::Config, Id::zero())));

    // An index file that does not open under the key.
    let mut backend = fresh(b"first secret").into_backend();
    backend.write(FileType::Index, &Id::of(b"torn"), b"no index file").unwrap();
    let e = Repository::open(backend.clone(), b"first secret").err().unwrap();
    assert_eq!(e.kind, ErrorKind::Corrupt);
    assert_eq!(e.context, Some((FileType::Index, Id::of(b"torn"))));
    // The password is tried first.
    let e = Repository::open(backend, b"second secret").err().unwrap();
    assert_eq!(e.kind, ErrorKind::AuthenticationFailed);

    // A new repository cannot live beside an index file of another.
    let mut backend = MemoryBackend::new();
    backend.write(FileType::Index, &Id::of(b"foreign"), b"of another repository").unwrap();
    let e = Repository::init(backend, b"first secret", quick(), small_chunks()).err().unwrap();
    assert_eq!(e.kind, ErrorKind::Corrupt);
    assert_eq!(e.context, Some((FileType::Index, Id::of(b"foreign"))));
}

#[test]
fn init_writes_a_key_record_and_the_configuration_only() {
    let mut backend = MemoryBackend::new();
    backend.write(FileType::Pack, &Id::of(b"left over"), b"of no repository").unwrap();
    let repo = Repository::init(backend, b"first secret", quick(), small_chunks()).unwrap();
    assert_eq!(repo.backend().count(), 3);
    assert_eq!(count(&repo, FileType::Key), 1);
    assert_eq!(count(&repo, FileType::Config), 1);
    assert_eq!(count(&repo, FileType::Pack), 1);
}

#[test]
fn a_backup_writes_data_blobs_for_the_chunks() {
    let mut repo = fresh(b"first secret");
    let content = varied(64 * 10, 90);
    let files = vec![source("a", content.clone()), source("b", content.clone())];
    let sid = repo.backup(&files, snapshot_of(Id::zero(), 1)).unwrap();
    let tree = repo.load_snapshot(&sid).unwrap().tree;
    let nodes = repo.load_tree(&tree).unwrap();
    assert_eq!(nodes.len(), 2);
    assert_eq!(nodes[0].content.len(), 10);
    assert_eq!(nodes[0].content, nodes[1].content);
    for id in &nodes[0].content {
        assert_eq!(repo.kind_of(id), Some(BlobKind::Data));
    }
    assert_eq!(repo.kind_of(&tree), Some(BlobKind::Tree));
    assert_eq!(repo.blob_count(), 11);
}

#[test]
fn a_directory_is_saved_from_the_leaves_up() {
    let mut repo = fresh(b"first secret");
    let inner = repo.save_dir(&vec![source("x", varied(100, 91))]).unwrap();
    let mut folder = file_node("folder", 0, Vec::new());
    folder.kind = NodeKind::Dir;
    folder.subtree = Some(inner);
    let mut link = file_node("link", 0, Vec::new());
    link.kind = NodeKind::Symlink;
    link.target = b"folder/x".to_vec();
    let entries = vec![
        source("a", varied(70, 92)),
        Source { node: folder.clone(), data: Vec::new() },
        Source { node: link.clone(), data: b"not saved".to_vec() },
    ];
    let sid = repo.backup(&entries, snapshot_of(Id::zero(), 3)).unwrap();
    let tree = repo.load_snapshot(&sid).unwrap().tree;
    let nodes = repo.load_tree(&tree).unwrap();
    assert_eq!(nodes.len(), 3);
    assert_eq!(nodes[0].kind, NodeKind::File);
    assert_eq!(nodes[0].size, 70);
    assert_eq!(nodes[1], folder);
    assert_eq!(nodes[2], link);
    assert_eq!(repo.restore(&sid, b"a").unwrap(), varied(70, 92));
    let below = repo.load_tree(&inner).unwrap();
    assert_eq!(repo.load_file(&below[0].content).unwrap(), varied(100, 91));
    assert!(repo.check().unwrap().is_clean());
    // Saving the directory again changes nothing and gives the same tree.
    let objects = repo.backend().count();
    assert_eq!(repo.save_dir(&entries).unwrap(), tree);
    assert_eq!(repo.backend().count(), objects);
    assert_eq!(repo.pending_count(), 0);

    // A directory whose tree the repository does not have is refused.
    let mut lost = folder.clone();
    lost.subtree = Some(Id::of(b"no tree"));
    let e = repo.save_dir(&vec![Source { node: lost, data: Vec::new() }]).unwrap_err();
    assert_eq!(e.kind, ErrorKind::NotFound);
}

#[test]
fn the_latest_snapshot_is_the_last_of_the_greatest_time() {
    let a = Id::of(b"a");
    let tree = Id::of(b"");
    assert_eq!(latest(&Vec::new()), None);
    let list = vec![
        (a, snapshot_of(tree, 5)),
        (Id::of(b"b"), snapshot_of(tree, 9)),
        (Id::of(b"c"), snapshot_of(tree, 2)),
        (Id::of(b"d"), snapshot_of(tree, 9)),
        (Id::of(b"e"), snapshot_of(tree, 0)),
    ];
    assert_eq!(latest(&list), Some(3));
    assert_eq!(latest(&list[..1].to_vec()), Some(0));
}
