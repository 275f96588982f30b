//! Checking a repository without changing it.

use crate::backend::Backend;
use crate::blob::{blob_at, BlobKind, Entry, Location, open_blob};
use crate::error::{Error, ErrorKind, FileType};
use crate::id::Id;
use crate::reach::{lemma_push_contains, Mark, mark_of};
use crate::repo::Repository;
use crate::store::{file_entries, indexed, lists, Pending, read_entries, RepoView, roots_at, snapshot_in};
use crate::tree::same_bytes;
use crate::tree::decode_tree;
use crate::world::{blob_ok, complete, reachable, sound};
use vstd::prelude::*;

verus! {

/// What a check found.
#[derive(Clone, Debug, PartialEq, Eq)]
pub struct Report {
    /// Addresses that a snapshot reaches and under which there is no blob.
    pub missing: Vec<Id>,
    /// Indexed blobs that cannot be read, do not have the content that
    /// their address stands for, or are malformed trees.
    pub corrupt: Vec<Id>,
    /// Snapshots that cannot be read.
    pub unreadable: Vec<Id>,
    /// Entries of index files that do not agree with the index in memory:
    /// the index has no blob or one of another kind under their address,
    /// or holds something else there than lies at their place.
    pub stray: Vec<Entry>,
}

/// Whether the entry agrees with the index: the index has under its
/// address a blob of its kind, and at its place lies what lies at the
/// place that the index gives.
pub open spec fn agrees(v: RepoView, e: Entry) -> bool {
    &&& v.index.contains_key(e.id)
    &&& e.loc.kind == v.index[e.id].kind
    &&& blob_at(v.objects, v.key, e.loc) == blob_at(v.objects, v.key, v.index[e.id])
}

impl Report {
    /// Nothing was found.
    pub open spec fn clean(self) -> bool {
        self.missing@.len() == 0 && self.corrupt@.len() == 0 && self.unreadable@.len() == 0
            && self.stray@.len() == 0
    }

    /// Whether nothing was found.
    pub fn is_clean(&self) -> (r: bool)
        ensures
            r == self.clean(),
    {
        self.missing.len() == 0 && self.corrupt.len() == 0 && self.unreadable.len() == 0
            && self.stray.len() == 0
    }
}

/// The root trees of the snapshots that can be read, and the snapshots
/// that cannot.
pub struct Roots {
    pub trees: Vec<Id>,
    pub unreadable: Vec<Id>,
}

impl<B: Backend> Repository<B> {
    /// Reads every snapshot for its root tree.
    pub fn live_roots(&self) -> (r: Result<Roots, Error>)
        requires
            self.wf(),
        ensures
            match r {
                Ok(roots) => {
                    &&& roots.trees@.to_set() == self@.roots()
                    &&& forall|sid: Id| #[trigger]
                        roots.unreadable@.contains(sid) <==> self@.objects.contains_key(
                            (FileType::Snapshot, sid),
                        ) && snapshot_in(self@.objects, self@.key, sid) is None
                },
                Err(e) => e.kind == ErrorKind::BackendTransient && !self.reliable(),
            },
    {
        let ids = match self.backend.list(FileType::Snapshot) {
            Ok(ids) => ids,
            Err(e) => {
                return Err(e);
            },
        };
        let mut trees: Vec<Id> = Vec::new();
        let mut unreadable: Vec<Id> = Vec::new();
        let mut i: usize = 0;
        while i < ids.len()
            invariant
                i <= ids@.len(),
                self.wf(),
                forall|id: Id| #[trigger]
                    ids@.contains(id) <==> self@.objects.contains_key((FileType::Snapshot, id)),
                forall|t: Id| #[trigger]
                    trees@.contains(t) <==> exists|j: int|
                        0 <= j < i && roots_at(self@.objects, self@.key, #[trigger] ids@[j], t),
                forall|sid: Id| #[trigger]
                    unreadable@.contains(sid) <==> exists|j: int|
                        0 <= j < i && #[trigger] ids@[j] == sid && snapshot_in(
                            self@.objects,
                            self@.key,
                            sid,
                        ) is None,
            decreases ids@.len() - i,
        {
            let sid = ids[i];
            assert(ids@.contains(sid));
            let ghost t0 = trees@;
            let ghost u0 = unreadable@;
            match self.load_snapshot(&sid) {
                Ok(s) => {
                    trees.push(s.tree);
                    proof {
                        lemma_push_contains(t0, s.tree);
                        assert(trees@ == t0.push(s.tree));
                        assert forall|t: Id| #[trigger]
                            trees@.contains(t) <==> exists|j: int|
                                0 <= j < i + 1 && roots_at(
                                    self@.objects,
                                    self@.key,
                                    #[trigger] ids@[j],
                                    t,
                                ) by {
                            assert(t0.push(s.tree).contains(t) <==> t0.contains(t) || t == s.tree);
                            if t == s.tree {
                                assert(roots_at(self@.objects, self@.key, ids@[i as int], t));
                            }
                            if t0.contains(t) {
                                let j = choose|j: int|
                                    0 <= j < i && roots_at(
                                        self@.objects,
                                        self@.key,
                                        #[trigger] ids@[j],
                                        t,
                                    );
                                assert(0 <= j < i + 1);
                            }
                        }
                        assert forall|x: Id| #[trigger]
                            unreadable@.contains(x) <==> exists|j: int|
                                0 <= j < i + 1 && #[trigger] ids@[j] == x && snapshot_in(
                                    self@.objects,
                                    self@.key,
                                    x,
                                ) is None by {
                            if u0.contains(x) {
                                let j = choose|j: int|
                                    0 <= j < i && #[trigger] ids@[j] == x && snapshot_in(
                                        self@.objects,
                                        self@.key,
                                        x,
                                    ) is None;
                                assert(0 <= j < i + 1);
                            }
                        }
                    }
                },
                Err(e) => {
                    if e.kind != ErrorKind::Corrupt {
                        return Err(Error::at(ErrorKind::BackendTransient, FileType::Snapshot, sid));
                    }
                    unreadable.push(sid);
                    proof {
                        lemma_push_contains(u0, sid);
                        assert(unreadable@ == u0.push(sid));
                        assert forall|x: Id| #[trigger]
                            unreadable@.contains(x) <==> exists|j: int|
                                0 <= j < i + 1 && #[trigger] ids@[j] == x && snapshot_in(
                                    self@.objects,
                                    self@.key,
                                    x,
                                ) is None by {
                            assert(u0.push(sid).contains(x) <==> u0.contains(x) || x == sid);
                            if x == sid {
                                assert(ids@[i as int] == x);
                            }
                            if u0.contains(x) {
                                let j = choose|j: int|
                                    0 <= j < i && #[trigger] ids@[j] == x && snapshot_in(
                                        self@.objects,
                                        self@.key,
                                        x,
                                    ) is None;
                                assert(0 <= j < i + 1);
                            }
                        }
                        assert forall|t: Id| #[trigger]
                            trees@.contains(t) <==> exists|j: int|
                                0 <= j < i + 1 && roots_at(
                                    self@.objects,
                                    self@.key,
                                    #[trigger] ids@[j],
                                    t,
                                ) by {
                            if trees@.contains(t) {
                                let j = choose|j: int|
                                    0 <= j < i && roots_at(
                                        self@.objects,
                                        self@.key,
                                        #[trigger] ids@[j],
                                        t,
                                    );
                                assert(0 <= j < i + 1);
                            }
                        }
                    }
                },
            }
            i += 1;
        }
        proof {
            assert forall|t: Id| trees@.to_set().contains(t) <==> self@.roots().contains(t) by {
                if trees@.contains(t) {
                    let j = choose|j: int|
                        0 <= j < ids@.len() && roots_at(
                            self@.objects,
                            self@.key,
                            #[trigger] ids@[j],
                            t,
                        );
                }
                if self@.roots().contains(t) {
                    let sid = choose|sid: Id| #[trigger]
                        roots_at(self@.objects, self@.key, sid, t);
                    assert(ids@.contains(sid));
                    let j = choose|j: int| 0 <= j < ids@.len() && ids@[j] == sid;
                    assert(roots_at(self@.objects, self@.key, ids@[j], t));
                }
            }
            assert(trees@.to_set() =~= self@.roots());
            assert forall|sid: Id| #[trigger]
                unreadable@.contains(sid) <==> self@.objects.contains_key(
                    (FileType::Snapshot, sid),
                ) && snapshot_in(self@.objects, self@.key, sid) is None by {
                if unreadable@.contains(sid) {
                    let j = choose|j: int|
                        0 <= j < ids@.len() && #[trigger] ids@[j] == sid && snapshot_in(
                            self@.objects,
                            self@.key,
                            sid,
                        ) is None;
                    assert(ids@.contains(ids@[j]));
                }
                if self@.objects.contains_key((FileType::Snapshot, sid)) && snapshot_in(
                    self@.objects,
                    self@.key,
                    sid,
                ) is None {
                    assert(ids@.contains(sid));
                    let j = choose|j: int| 0 <= j < ids@.len() && ids@[j] == sid;
                    assert(ids@[j] == sid);
                }
            }
        }
        Ok(Roots { trees, unreadable })
    }

    /// Reads one stored blob and holds it against its address and kind.
    pub fn verify_blob(&self, id: &Id) -> (r: Result<bool, Error>)
        requires
            self.wf(),
            self@.world().contains_key(*id),
        ensures
            match r {
                Ok(ok) => ok == blob_ok(*id, self@.world()[*id]),
                Err(e) => e.kind == ErrorKind::BackendTransient && !self.reliable(),
            },
    {
        let kind = match self.queued.get(id) {
            Some(pos) => self.queue[*pos].kind,
            None => match self.index.get(id) {
                Some(loc) => loc.kind,
                None => BlobKind::Data,
            },
        };
        match self.load_blob(id) {
            Ok(d) => {
                if !Id::of(d.as_slice()).same(id) {
                    return Ok(false);
                }
                if kind == BlobKind::Tree {
                    return Ok(decode_tree(d.as_slice()).is_some());
                }
                Ok(true)
            },
            Err(e) => {
                if e.kind == ErrorKind::BackendTransient {
                    return Err(Error::bare(ErrorKind::BackendTransient));
                }
                Ok(false)
            },
        }
    }

    /// The blob that lies at a place, or `None` where no blob can be read
    /// there.
    pub fn blob_in(&self, loc: &Location) -> (r: Result<Option<Vec<u8>>, Error>)
        requires
            self.wf(),
        ensures
            match r {
                Ok(Some(d)) => blob_at(self@.objects, self@.key, *loc) == Some(d@),
                Ok(None) => blob_at(self@.objects, self@.key, *loc) is None,
                Err(e) => e.kind == ErrorKind::BackendTransient && !self.reliable(),
            },
    {
        let stored = match self.backend.read(FileType::Pack, &loc.pack, loc.offset, loc.length) {
            Ok(s) => s,
            Err(e) => {
                if e.kind == ErrorKind::BackendTransient {
                    return Err(Error::bare(ErrorKind::BackendTransient));
                }
                return Ok(None);
            },
        };
        match open_blob(&self.key, stored.as_slice()) {
            Ok(d) => Ok(Some(d)),
            Err(e) => Ok(None),
        }
    }

    /// Whether an entry agrees with the index in memory.
    pub fn entry_agrees(&self, e: &Entry) -> (r: Result<bool, Error>)
        requires
            self.wf(),
        ensures
            match r {
                Ok(b) => b == agrees(self@, *e),
                Err(e) => e.kind == ErrorKind::BackendTransient && !self.reliable(),
            },
    {
        let loc = match self.index.get(&e.id) {
            Some(l) => *l,
            None => {
                return Ok(false);
            },
        };
        if loc.kind != e.loc.kind {
            return Ok(false);
        }
        if loc.pack.same(&e.loc.pack) && loc.offset == e.loc.offset && loc.length == e.loc.length {
            assert(loc == e.loc);
            return Ok(true);
        }
        let there = match self.blob_in(&e.loc) {
            Ok(b) => b,
            Err(e) => {
                return Err(e);
            },
        };
        let here = match self.blob_in(&loc) {
            Ok(b) => b,
            Err(e) => {
                return Err(e);
            },
        };
        match (there, here) {
            (Some(a), Some(b)) => Ok(same_bytes(a.as_slice(), b.as_slice())),
            (None, None) => Ok(true),
            _ => Ok(false),
        }
    }

    /// Adds to `out` the entries of the list that do not agree with the
    /// index in memory.
    fn stray_of(&self, entries: &Vec<Entry>, out: &mut Vec<Entry>) -> (r: Result<(), Error>)
        requires
            self.wf(),
        ensures
            match r {
                Ok(()) => forall|e: Entry| #[trigger]
                    final(out)@.contains(e) <==> old(out)@.contains(e) || (entries@.contains(e)
                        && !agrees(self@, e)),
                Err(e) => e.kind == ErrorKind::BackendTransient && !self.reliable(),
            },
    {
        let ghost before = out@;
        let mut k: usize = 0;
        assert(entries@.take(0) =~= Seq::<Entry>::empty());
        while k < entries.len()
            invariant
                k <= entries@.len(),
                self.wf(),
                forall|e: Entry| #[trigger]
                    out@.contains(e) <==> before.contains(e) || (entries@.take(k as int).contains(
                        e,
                    ) && !agrees(self@, e)),
            decreases entries@.len() - k,
        {
            let e = entries[k];
            let ghost had = out@;
            let fine = match self.entry_agrees(&e) {
                Ok(b) => b,
                Err(err) => {
                    return Err(err);
                },
            };
            if !fine {
                out.push(e);
            }
            proof {
                assert(entries@.take(k + 1) =~= entries@.take(k as int).push(e));
                assert forall|x: Entry| #[trigger]
                    out@.contains(x) <==> before.contains(x) || (entries@.take(k + 1).contains(x)
                        && !agrees(self@, x)) by {
                    assert(entries@.take(k as int).push(e).contains(x) <==> entries@.take(
                        k as int,
                    ).contains(x) || x == e) by {
                        let t = entries@.take(k as int);
                        if t.push(e).contains(x) {
                            let i = choose|i: int| 0 <= i < t.push(e).len() && t.push(e)[i] == x;
                            if i < t.len() {
                                assert(t[i] == x);
                            }
                        }
                        if t.contains(x) {
                            let i = choose|i: int| 0 <= i < t.len() && t[i] == x;
                            assert(t.push(e)[i] == x);
                        }
                        if x == e {
                            assert(t.push(e)[t.len() as int] == x);
                        }
                    }
                    if !fine {
                        assert(out@ == had.push(e));
                        assert(had.push(e).contains(x) <==> had.contains(x) || x == e) by {
                            if had.push(e).contains(x) {
                                let i = choose|i: int|
                                    0 <= i < had.push(e).len() && had.push(e)[i] == x;
                                if i < had.len() {
                                    assert(had[i] == x);
                                }
                            }
                            if had.contains(x) {
                                let i = choose|i: int| 0 <= i < had.len() && had[i] == x;
                                assert(had.push(e)[i] == x);
                            }
                            if x == e {
                                assert(had.push(e)[had.len() as int] == x);
                            }
                        }
                    }
                }
            }
            k += 1;
        }
        assert(entries@.take(entries@.len() as int) =~= entries@);
        Ok(())
    }

    /// The entries of the index files that do not agree with the index in
    /// memory. There is none exactly where the index files agree with the
    /// index. An index file that cannot be read lists nothing.
    pub fn stray_entries(&self) -> (r: Result<Vec<Entry>, Error>)
        requires
            self.wf(),
        ensures
            match r {
                Ok(list) => {
                    &&& forall|e: Entry| #[trigger]
                        list@.contains(e) <==> indexed(self@.objects, self@.key, e) && !agrees(
                            self@,
                            e,
                        )
                    &&& list@.len() == 0 <==> self@.coherent()
                },
                Err(e) => e.kind == ErrorKind::BackendTransient && !self.reliable(),
            },
    {
        let files = match self.backend.list(FileType::Index) {
            Ok(f) => f,
            Err(e) => {
                return Err(e);
            },
        };
        let ghost objects = self@.objects;
        let ghost key = self@.key;
        let mut out: Vec<Entry> = Vec::new();
        let mut i: usize = 0;
        while i < files.len()
            invariant
                i <= files@.len(),
                self.wf(),
                objects == self@.objects,
                key == self@.key,
                forall|f: Id| #[trigger]
                    files@.contains(f) <==> objects.contains_key((FileType::Index, f)),
                forall|e: Entry| #[trigger]
                    out@.contains(e) <==> !agrees(self@, e) && exists|j: int|
                        0 <= j < i && lists(objects, key, #[trigger] files@[j], e),
            decreases files@.len() - i,
        {
            let f = files[i];
            assert(files@.contains(f));
            let ghost had = out@;
            let data = match self.backend.read_all(FileType::Index, &f) {
                Ok(d) => d,
                Err(e) => {
                    return Err(Error::at(ErrorKind::BackendTransient, FileType::Index, f));
                },
            };
            let listed = match crate::crypto::decrypt(&self.key.bytes, data.as_slice()) {
                Ok(plain) => read_entries(plain.as_slice()),
                Err(e) => None,
            };
            match listed {
                Some(entries) => {
                    assert(file_entries(key, objects[(FileType::Index, f)]) == Some(entries@));
                    match self.stray_of(&entries, &mut out) {
                        Ok(()) => {},
                        Err(e) => {
                            return Err(e);
                        },
                    }
                    proof {
                        assert forall|e: Entry| #[trigger]
                            out@.contains(e) <==> !agrees(self@, e) && exists|j: int|
                                0 <= j < i + 1 && lists(objects, key, #[trigger] files@[j], e) by {
                            if had.contains(e) {
                                let j = choose|j: int|
                                    0 <= j < i && lists(objects, key, #[trigger] files@[j], e);
                                assert(0 <= j < i + 1 && lists(objects, key, files@[j], e));
                            }
                            if entries@.contains(e) {
                                assert(lists(objects, key, files@[i as int], e));
                            }
                            if !agrees(self@, e) && exists|j: int|
                                0 <= j < i + 1 && lists(objects, key, #[trigger] files@[j], e) {
                                let j = choose|j: int|
                                    0 <= j < i + 1 && lists(objects, key, #[trigger] files@[j], e);
                                if j < i {
                                    assert(had.contains(e));
                                }
                            }
                        }
                    }
                },
                None => {
                    proof {
                        assert(file_entries(key, objects[(FileType::Index, f)]) is None);
                        assert forall|e: Entry| #[trigger]
                            out@.contains(e) <==> !agrees(self@, e) && exists|j: int|
                                0 <= j < i + 1 && lists(objects, key, #[trigger] files@[j], e) by {
                            if out@.contains(e) {
                                let j = choose|j: int|
                                    0 <= j < i && lists(objects, key, #[trigger] files@[j], e);
                                assert(0 <= j < i + 1 && lists(objects, key, files@[j], e));
                            }
                            if !agrees(self@, e) && exists|j: int|
                                0 <= j < i + 1 && lists(objects, key, #[trigger] files@[j], e) {
                                let j = choose|j: int|
                                    0 <= j < i + 1 && lists(objects, key, #[trigger] files@[j], e);
                                assert(j < i);
                            }
                        }
                    }
                },
            }
            i += 1;
        }
        proof {
            assert forall|e: Entry| #[trigger]
                out@.contains(e) <==> indexed(objects, key, e) && !agrees(self@, e) by {
                if out@.contains(e) {
                    let j = choose|j: int|
                        0 <= j < files@.len() && lists(objects, key, #[trigger] files@[j], e);
                    assert(lists(objects, key, files@[j], e));
                }
                if indexed(objects, key, e) && !agrees(self@, e) {
                    let f = choose|f: Id| #[trigger] lists(objects, key, f, e);
                    assert(files@.contains(f));
                    let j = choose|j: int| 0 <= j < files@.len() && files@[j] == f;
                    assert(lists(objects, key, files@[j], e));
                }
            }
            if out@.len() == 0 {
                assert forall|e: Entry| #[trigger] indexed(objects, key, e) implies agrees(
                    self@,
                    e,
                ) by {
                    if !agrees(self@, e) {
                        assert(out@.contains(e));
                    }
                }
            } else {
                assert(out@.contains(out@[0]));
            }
        }
        Ok(out)
    }

    /// Checks the repository: reads every indexed blob, holds every entry
    /// of every index file against the index, and walks everything that
    /// the snapshots reach. Nothing is changed. Fails with `Invalid`
    /// exactly where blobs wait to be packed.
    pub fn check(&self) -> (r: Result<Report, Error>)
        requires
            self.wf(),
        ensures
            match r {
                Ok(report) => {
                    &&& self@.pending == Map::<Id, Pending>::empty()
                    &&& forall|id: Id| #[trigger]
                        report.missing@.contains(id) <==> reachable(
                            self@.world(),
                            self@.roots(),
                            id,
                        ) && !self@.world().contains_key(id)
                    &&& forall|id: Id| #[trigger]
                        report.corrupt@.contains(id) <==> self@.world().contains_key(id)
                            && !blob_ok(id, self@.world()[id])
                    &&& forall|sid: Id| #[trigger]
                        report.unreadable@.contains(sid) <==> self@.objects.contains_key(
                            (FileType::Snapshot, sid),
                        ) && snapshot_in(self@.objects, self@.key, sid) is None
                    &&& forall|e: Entry| #[trigger]
                        report.stray@.contains(e) <==> indexed(self@.objects, self@.key, e)
                            && !agrees(self@, e)
                    &&& report.stray@.len() == 0 <==> self@.coherent()
                    &&& report.missing@.len() == 0 <==> complete(self@.world(), self@.roots())
                    &&& report.corrupt@.len() == 0 <==> sound(self@.world())
                    &&& report.unreadable@.len() == 0 <==> forall|sid: Id| #[trigger]
                        self@.objects.contains_key((FileType::Snapshot, sid)) ==> snapshot_in(
                            self@.objects,
                            self@.key,
                            sid,
                        ) is Some
                },
                Err(e) => {
                    &&& e.kind == ErrorKind::Invalid || e.kind == ErrorKind::BackendTransient
                    &&& e.kind == ErrorKind::Invalid <==> self@.pending != Map::<
                        Id,
                        Pending,
                    >::empty()
                    &&& e.kind == ErrorKind::BackendTransient ==> !self.reliable()
                },
            },
    {
        if self.queue.len() > 0 {
            proof {
                assert(self.queued@.contains_key(self.queue@[0].id));
                assert(self@.pending.contains_key(self.queue@[0].id));
            }
            return Err(Error::bare(ErrorKind::Invalid));
        }
        assert(self@.pending =~= Map::<Id, Pending>::empty());
        let ghost world = self@.world();
        let stray = match self.stray_entries() {
            Ok(s) => s,
            Err(e) => {
                return Err(e);
            },
        };
        let roots = match self.live_roots() {
            Ok(r) => r,
            Err(e) => {
                return Err(e);
            },
        };
        let seen = match self.reach(&roots.trees) {
            Ok(s) => s,
            Err(e) => {
                return Err(e);
            },
        };
        let mut missing: Vec<Id> = Vec::new();
        let keys = seen.keys();
        let mut i: usize = 0;
        assert(keys@.take(0) =~= Seq::<Id>::empty());
        while i < keys.len()
            invariant
                i <= keys@.len(),
                seen.wf(),
                forall|k: Id| #[trigger] keys@.contains(k) <==> seen@.contains_key(k),
                forall|id: Id| #[trigger]
                    missing@.contains(id) <==> keys@.take(i as int).contains(id) && seen@[id]
                        == Mark::Absent,
            decreases keys@.len() - i,
        {
            let k = keys[i];
            assert(keys@.contains(k));
            let ghost m0 = missing@;
            proof {
                lemma_push_contains(keys@.take(i as int), k);
                assert(keys@.take(i + 1) =~= keys@.take(i as int).push(k));
            }
            let mark = match seen.get(&k) {
                Some(m) => *m,
                None => Mark::Held,
            };
            if mark == Mark::Absent {
                missing.push(k);
                proof {
                    lemma_push_contains(m0, k);
                    assert(missing@ == m0.push(k));
                }
            }
            proof {
                assert forall|id: Id| #[trigger]
                    missing@.contains(id) <==> keys@.take(i + 1).contains(id) && seen@[id]
                        == Mark::Absent by {
                    assert(keys@.take(i as int).push(k).contains(id) <==> keys@.take(
                        i as int,
                    ).contains(id) || id == k);
                    if mark == Mark::Absent {
                        assert(m0.push(k).contains(id) <==> m0.contains(id) || id == k);
                    }
                }
            }
            i += 1;
        }
        assert(keys@.take(keys@.len() as int) =~= keys@);
        let mut corrupt: Vec<Id> = Vec::new();
        let ids = self.index.keys();
        let mut j: usize = 0;
        assert(ids@.take(0) =~= Seq::<Id>::empty());
        while j < ids.len()
            invariant
                j <= ids@.len(),
                self.wf(),
                self@.pending == Map::<Id, Pending>::empty(),
                world == self@.world(),
                forall|k: Id| #[trigger] ids@.contains(k) <==> self@.index.contains_key(k),
                forall|id: Id| #[trigger]
                    corrupt@.contains(id) <==> ids@.take(j as int).contains(id) && !blob_ok(
                        id,
                        world[id],
                    ),
            decreases ids@.len() - j,
        {
            let k = ids[j];
            assert(ids@.contains(k));
            let ghost c0 = corrupt@;
            proof {
                lemma_push_contains(ids@.take(j as int), k);
                assert(ids@.take(j + 1) =~= ids@.take(j as int).push(k));
            }
            let ok = match self.verify_blob(&k) {
                Ok(ok) => ok,
                Err(e) => {
                    return Err(e);
                },
            };
            if !ok {
                corrupt.push(k);
                proof {
                    lemma_push_contains(c0, k);
                    assert(corrupt@ == c0.push(k));
                }
            }
            proof {
                assert forall|id: Id| #[trigger]
                    corrupt@.contains(id) <==> ids@.take(j + 1).contains(id) && !blob_ok(
                        id,
                        world[id],
                    ) by {
                    assert(ids@.take(j as int).push(k).contains(id) <==> ids@.take(
                        j as int,
                    ).contains(id) || id == k);
                    if !ok {
                        assert(c0.push(k).contains(id) <==> c0.contains(id) || id == k);
                    }
                }
            }
            j += 1;
        }
        assert(ids@.take(ids@.len() as int) =~= ids@);
        proof {
            assert forall|id: Id| #[trigger]
                missing@.contains(id) <==> reachable(world, self@.roots(), id)
                    && !world.contains_key(id) by {
                if seen@.contains_key(id) {
                    assert(seen@[id] == mark_of(world, id));
                }
            }
            assert forall|id: Id| #[trigger]
                corrupt@.contains(id) <==> world.contains_key(id) && !blob_ok(id, world[id]) by {}
            if missing@.len() == 0 {
                assert forall|id: Id| #[trigger]
                    reachable(world, self@.roots(), id) implies world.contains_key(id) by {
                    if !world.contains_key(id) {
                        assert(missing@.contains(id));
                    }
                }
            } else {
                assert(missing@.contains(missing@[0]));
            }
            if roots.unreadable@.len() == 0 {
                assert forall|sid: Id| #[trigger]
                    self@.objects.contains_key((FileType::Snapshot, sid)) implies snapshot_in(
                    self@.objects,
                    self@.key,
                    sid,
                ) is Some by {
                    if snapshot_in(self@.objects, self@.key, sid) is None {
                        assert(roots.unreadable@.contains(sid));
                    }
                }
            } else {
                assert(roots.unreadable@.contains(roots.unreadable@[0]));
            }
            if corrupt@.len() == 0 {
                assert forall|id: Id| #[trigger] world.contains_key(id) implies blob_ok(
                    id,
                    world[id],
                ) by {
                    if !blob_ok(id, world[id]) {
                        assert(corrupt@.contains(id));
                    }
                }
            } else {
                assert(corrupt@.contains(corrupt@[0]));
            }
        }
        Ok(Report { missing, corrupt, unreadable: roots.unreadable, stray })
    }
}

} // verus!
