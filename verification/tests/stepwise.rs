use rustic::backend::{Backend, MemoryBackend};
use rustic::chunker::ChunkerParams;
use rustic::compress::Compression;
use rustic::crypto::KdfParams;
use rustic::error::{Error, ErrorKind, FileType};
use rustic::id::Id;
use rustic::prune::{PackAction, Phase};
use rustic::pruner::Pruner;
use rustic::repo::{Config, Repository, FORMAT_VERSION};
use rustic::retry::{Backoff, NoPause, Pause, Retrying};
use rustic::tree::{Node, NodeKind, Snapshot};
use std::cell::{Cell, RefCell};

fn config() -> Config {
    Config {
        version: FORMAT_VERSION,
        chunker: ChunkerParams { min_size: 64, avg_size: 16, max_size: 64 },
        compression: Compression::Deflate(1),
    }
}

fn kdf() -> KdfParams {
    KdfParams { log_n: 4, r: 1, p: 1 }
}

fn file(name: &str, content: Vec<Id>) -> Node {
    Node {
        name: name.as_bytes().to_vec(),
        kind: NodeKind::File,
        mode: 0o644,
        uid: 1,
        gid: 1,
        mtime: 1,
        size: 0,
        content,
        subtree: None,
        target: Vec::new(),
    }
}

fn snap(tree: Id, time: u64) -> Snapshot {
    Snapshot { time, host: Vec::new(), paths: Vec::new(), tags: Vec::new(), parent: None, tree }
}

fn noise(len: usize, seed: u8) -> Vec<u8> {
    (0..len).map(|i| (i as u8).wrapping_mul(31).wrapping_add(seed).rotate_left(i as u32 % 7)).collect()
}

#[test]
fn a_prune_goes_through_its_phases() {
    let mut repo = Repository::init(MemoryBackend::new(), b"pw", kdf(), config()).unwrap();
    let a = repo.save_file(&noise(640, 1)).unwrap();
    let b = repo.save_file(&noise(64, 2)).unwrap();
    let tree_a = repo.save_tree(&vec![file("a", a.clone())]).unwrap();
    let tree_b = repo.save_tree(&vec![file("b", b.clone())]).unwrap();
    let one = repo.commit_snapshot(&snap(tree_a, 1)).unwrap();
    repo.commit_snapshot(&snap(tree_b, 2)).unwrap();
    repo.forget(&one).unwrap();

    let mut pruner = Pruner::new(50);
    assert_eq!(pruner.phase(), Phase::Scanning);
    let mut seen = vec![pruner.phase()];
    while pruner.phase() != Phase::Done {
        let next = pruner.step(&mut repo).unwrap();
        assert_eq!(next, pruner.phase());
        if next == Phase::Repacking {
            assert_eq!(pruner.planned().len(), 1);
            assert_eq!(pruner.planned()[0].action, PackAction::Repack);
        }
        if next == Phase::Deleting {
            assert_eq!(repo.backend().list(FileType::Pack).unwrap().len(), 2);
            assert_eq!(repo.backend().list(FileType::Index).unwrap().len(), 2);
            assert_eq!(repo.blob_count(), 2);
        }
        seen.push(next);
    }
    assert_eq!(
        seen,
        vec![
            Phase::Scanning,
            Phase::ComputingReachability,
            Phase::Planning,
            Phase::Repacking,
            Phase::Deleting,
            Phase::Done
        ]
    );
    assert_eq!(pruner.step(&mut repo).unwrap(), Phase::Done);
    assert_eq!(repo.backend().list(FileType::Pack).unwrap().len(), 1);
    assert_eq!(repo.backend().list(FileType::Index).unwrap().len(), 1);
    assert!(repo.check().unwrap().is_clean());
    assert_eq!(repo.load_file(&b).unwrap(), noise(64, 2));
}

#[test]
fn a_failed_step_sends_the_prune_back() {
    let mut repo = Repository::init(MemoryBackend::new(), b"pw", kdf(), config()).unwrap();
    repo.save_data(b"waiting").unwrap();
    let mut pruner = Pruner::new(50);
    let e = pruner.step(&mut repo).unwrap_err();
    assert_eq!(e.kind, ErrorKind::Invalid);
    assert_eq!(pruner.phase(), Phase::Scanning);
    repo.flush().unwrap();
    let tree = repo.save_tree(&vec![file("gone", vec![Id::of(b"waiting")])]).unwrap();
    repo.commit_snapshot(&snap(tree, 1)).unwrap();
    for f in repo.backend().list(FileType::Index).unwrap() {
        repo.backend.remove(FileType::Index, &f).unwrap();
    }
    assert_eq!(pruner.step(&mut repo).unwrap(), Phase::ComputingReachability);
    let e = pruner.step(&mut repo).unwrap_err();
    assert_eq!(e.kind, ErrorKind::NotFound);
    assert_eq!(pruner.phase(), Phase::Scanning);
}

/// A backend that fails for the moment a given number of times before each
/// success.
struct Flaky {
    inner: MemoryBackend,
    failures: Cell<u32>,
    every: u32,
}

impl Flaky {
    fn trip(&self, file_type: FileType, id: Option<&Id>) -> Option<Error> {
        if self.failures.get() < self.every {
            self.failures.set(self.failures.get() + 1);
            Some(Error {
                kind: ErrorKind::BackendTransient,
                context: id.map(|i| (file_type, *i)),
            })
        } else {
            self.failures.set(0);
            None
        }
    }
}

impl Backend for Flaky {
    fn list(&self, file_type: FileType) -> Result<Vec<Id>, Error> {
        match self.trip(file_type, None) {
            Some(e) => Err(e),
            None => self.inner.list(file_type),
        }
    }

    fn size(&self, file_type: FileType, id: &Id) -> Result<u64, Error> {
        match self.trip(file_type, Some(id)) {
            Some(e) => Err(e),
            None => self.inner.size(file_type, id),
        }
    }

    fn read_all(&self, file_type: FileType, id: &Id) -> Result<Vec<u8>, Error> {
        match self.trip(file_type, Some(id)) {
            Some(e) => Err(e),
            None => self.inner.read_all(file_type, id),
        }
    }

    fn read(&self, file_type: FileType, id: &Id, offset: u64, length: u64) -> Result<Vec<u8>, Error> {
        match self.trip(file_type, Some(id)) {
            Some(e) => Err(e),
            None => self.inner.read(file_type, id, offset, length),
        }
    }

    fn write(&mut self, file_type: FileType, id: &Id, data: &[u8]) -> Result<(), Error> {
        match self.trip(file_type, Some(id)) {
            Some(e) => Err(e),
            None => self.inner.write(file_type, id, data),
        }
    }

    fn remove(&mut self, file_type: FileType, id: &Id) -> Result<(), Error> {
        match self.trip(file_type, Some(id)) {
            Some(e) => Err(e),
            None => self.inner.remove(file_type, id),
        }
    }
}

struct Recorded<'a>(&'a RefCell<Vec<u64>>);

impl Pause for Recorded<'_> {
    fn pause(&self, millis: u64) {
        self.0.borrow_mut().push(millis);
    }
}

#[test]
fn backoff_doubles_up_to_the_cap() {
    let b = Backoff { base_ms: 100, cap_ms: 450, attempts: 5 };
    assert_eq!(b.delay(0), 100);
    assert_eq!(b.delay(1), 100);
    assert_eq!(b.delay(2), 200);
    assert_eq!(b.delay(3), 400);
    assert_eq!(b.delay(4), 450);
    assert_eq!(b.delay(40), 450);
    assert_eq!(Backoff { base_ms: 500, cap_ms: 450, attempts: 1 }.delay(1), 450);
    assert_eq!(Backoff { base_ms: 0, cap_ms: 450, attempts: 1 }.delay(9), 0);
    assert_eq!(Backoff { base_ms: u64::MAX / 2 + 1, cap_ms: u64::MAX, attempts: 1 }.delay(2), u64::MAX);
    assert_eq!(Backoff::standard().delay(2), 500);
}

#[test]
fn transient_failures_are_retried() {
    let waits = RefCell::new(Vec::new());
    let flaky = Flaky { inner: MemoryBackend::new(), failures: Cell::new(0), every: 2 };
    let policy = Backoff { base_ms: 10, cap_ms: 1000, attempts: 3 };
    let mut backend = Retrying::new(flaky, policy, Recorded(&waits));
    let id = Id::of(b"object");
    backend.write(FileType::Pack, &id, b"object").unwrap();
    assert_eq!(*waits.borrow(), vec![10, 20]);
    assert_eq!(backend.read_all(FileType::Pack, &id).unwrap(), b"object");
    assert_eq!(backend.list(FileType::Pack).unwrap(), vec![id]);
    assert_eq!(backend.size(FileType::Pack, &id).unwrap(), 6);
    assert_eq!(backend.read(FileType::Pack, &id, 2, 3).unwrap(), b"jec");
    let e = backend.write(FileType::Pack, &id, b"object").unwrap_err();
    assert_eq!(e.kind, ErrorKind::Conflict);
    backend.remove(FileType::Pack, &id).unwrap();
    assert_eq!(waits.borrow().len(), 14);
}

#[test]
fn retries_are_bounded() {
    let waits = RefCell::new(Vec::new());
    let flaky = Flaky { inner: MemoryBackend::new(), failures: Cell::new(0), every: 3 };
    let policy = Backoff { base_ms: 10, cap_ms: 15, attempts: 3 };
    let mut backend = Retrying::new(flaky, policy, Recorded(&waits));
    let e = backend.write(FileType::Pack, &Id::zero(), b"x").unwrap_err();
    assert_eq!(e.kind, ErrorKind::BackendTransient);
    assert_eq!(e.context, Some((FileType::Pack, Id::zero())));
    assert_eq!(*waits.borrow(), vec![10, 15]);
    assert!(backend.inner.inner.list(FileType::Pack).unwrap().is_empty());

    let once = Backoff { base_ms: 10, cap_ms: 15, attempts: 0 };
    let flaky = Flaky { inner: MemoryBackend::new(), failures: Cell::new(0), every: 1 };
    let backend = Retrying::new(flaky, once, NoPause);
    assert_eq!(backend.list(FileType::Key).unwrap_err().kind, ErrorKind::BackendTransient);
}

#[test]
fn a_repository_works_over_a_flaky_backend() {
    let flaky = Flaky { inner: MemoryBackend::new(), failures: Cell::new(0), every: 1 };
    let backend = Retrying::new(flaky, Backoff { base_ms: 1, cap_ms: 1, attempts: 2 }, NoPause);
    let mut repo = Repository::init(backend, b"pw", kdf(), config()).unwrap();
    let data = noise(500, 3);
    let ids = repo.save_file(&data).unwrap();
    let tree = repo.save_tree(&vec![file("f", ids.clone())]).unwrap();
    repo.commit_snapshot(&snap(tree, 1)).unwrap();
    assert_eq!(repo.load_file(&ids).unwrap(), data);
    assert!(repo.check().unwrap().is_clean());
    repo.prune(50).unwrap();
    assert_eq!(repo.load_file(&ids).unwrap(), data);
}

/// A repository with one pack of which one part in eleven is reachable.
fn mostly_dead() -> Repository<MemoryBackend> {
    let mut repo = Repository::init(MemoryBackend::new(), b"pw", kdf(), config()).unwrap();
    let a = repo.save_file(&noise(640, 1)).unwrap();
    let b = repo.save_file(&noise(64, 2)).unwrap();
    let tree_a = repo.save_tree(&vec![file("a", a)]).unwrap();
    let tree_b = repo.save_tree(&vec![file("b", b)]).unwrap();
    let one = repo.commit_snapshot(&snap(tree_a, 1)).unwrap();
    repo.commit_snapshot(&snap(tree_b, 2)).unwrap();
    repo.forget(&one).unwrap();
    repo
}

/// Steps the prune until its plan is made.
fn plan(pruner: &mut Pruner, repo: &mut Repository<MemoryBackend>) {
    while pruner.phase() != Phase::Repacking {
        pruner.step(repo).unwrap();
    }
}

#[test]
fn a_new_prune_has_planned_nothing() {
    let mut repo = mostly_dead();
    let mut pruner = Pruner::new(50);
    assert!(pruner.planned().is_empty());
    pruner.step(&mut repo).unwrap();
    assert_eq!(pruner.phase(), Phase::ComputingReachability);
    assert!(pruner.planned().is_empty());
    pruner.step(&mut repo).unwrap();
    assert_eq!(pruner.phase(), Phase::Planning);
    assert!(pruner.planned().is_empty());
}

#[test]
fn a_prune_decides_at_its_threshold() {
    let mut repo = mostly_dead();
    let packs = repo.backend().list(FileType::Pack).unwrap();
    assert_eq!(packs.len(), 1);
    let size = repo.backend().read_all(FileType::Pack, &packs[0]).unwrap().len() as u64;

    let mut never = Pruner::new(0);
    plan(&mut never, &mut repo);
    assert_eq!(never.planned().len(), 1);
    assert_eq!(never.planned()[0].pack, packs[0]);
    assert_eq!(never.planned()[0].size, size);
    assert_eq!(never.planned()[0].live.blobs, 2);
    assert_eq!(never.planned()[0].action, PackAction::Keep);

    let mut always = Pruner::new(100);
    plan(&mut always, &mut repo);
    assert_eq!(always.planned().len(), 1);
    assert_eq!(always.planned()[0].pack, packs[0]);
    assert_eq!(always.planned()[0].live, never.planned()[0].live);
    assert_eq!(always.planned()[0].action, PackAction::Repack);
}

#[test]
fn a_memory_backend_counts_its_objects() {
    let mut backend = MemoryBackend::new();
    assert_eq!(backend.count(), 0);
    backend.write(FileType::Pack, &Id::of(b"one"), b"first").unwrap();
    backend.write(FileType::Index, &Id::of(b"one"), b"second").unwrap();
    backend.write(FileType::Pack, &Id::of(b"two"), b"third").unwrap();
    assert_eq!(backend.count(), 3);
    assert!(backend.write(FileType::Pack, &Id::of(b"one"), b"again").is_err());
    assert_eq!(backend.count(), 3);
    backend.remove(FileType::Pack, &Id::of(b"one")).unwrap();
    assert_eq!(backend.count(), 2);
    assert_eq!(backend.read_all(FileType::Index, &Id::of(b"one")).unwrap(), b"second".to_vec());
}

#[test]
fn a_failure_is_followed_by_a_wait_or_stands() {
    let b = Backoff { base_ms: 100, cap_ms: 450, attempts: 3 };
    let passing = Error { kind: ErrorKind::BackendTransient, context: None };
    let lasting = Error { kind: ErrorKind::NotFound, context: None };
    assert_eq!(b.next(&passing, 1), Some(100));
    assert_eq!(b.next(&passing, 2), Some(200));
    assert_eq!(b.next(&passing, 3), None);
    assert_eq!(b.next(&passing, 4), None);
    assert_eq!(b.next(&lasting, 1), None);
    assert_eq!(Backoff { base_ms: 1, cap_ms: 1, attempts: 0 }.next(&passing, 0), None);
}

#[test]
fn a_failed_scan_says_why() {
    let mut repo = mostly_dead();
    repo.save_data(b"waits").unwrap();
    let mut pruner = Pruner::new(50);
    let e = pruner.step(&mut repo).unwrap_err();
    assert_eq!(e.kind, ErrorKind::Invalid);
    assert_eq!(pruner.phase(), Phase::Scanning);
    repo.flush().unwrap();
    assert_eq!(pruner.step(&mut repo).unwrap(), Phase::ComputingReachability);
}
