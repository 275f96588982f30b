//! Snapshots and key records of a repository.

use crate::backend::Backend;
use crate::blob::BlobKind;
use crate::crypto::{decrypt, encrypt, KdfParams};
use crate::error::{Error, ErrorKind, FileType};
use crate::id::Id;
use crate::keys::{new_record, open_record};
use crate::repo::Repository;
use crate::store::{
    key_gives, lemma_other_added, lemma_other_removed, lemma_roots_insert_snapshot, locked,
    Pending, RepoView, roots_at, snapshot_in,
};
use crate::tree::Snapshot;
use crate::crypto::MAX_MESSAGE;
use crate::tree::snapshot_bytes;
use vstd::prelude::*;

verus! {

impl<B: Backend> Repository<B> {
    /// Persists a snapshot. Every waiting blob is written first, so that
    /// no snapshot names a tree that is not stored. Fails with `NotFound`
    /// where the repository has no tree under the root, and with
    /// `Invalid` where the snapshot is too long to be sealed; then no
    /// snapshot is written. Where nothing waits, the snapshot is the only
    /// object that is written, and a failure changes nothing.
    pub fn commit_snapshot(&mut self, snapshot: &Snapshot) -> (r: Result<Id, Error>)
        requires
            old(self).wf(),
        ensures
            final(self).wf(),
            final(self).reliable() == old(self).reliable(),
            final(self).spec_config() == old(self).spec_config(),
            final(self)@.key == old(self)@.key,
            final(self)@.carries(old(self)@),
            forall|id: Id|
                final(self)@.world().contains_key(id) <==> old(self)@.world().contains_key(id),
            forall|k: (FileType, Id)| #[trigger]
                old(self)@.objects.contains_key(k) ==> final(self)@.objects.contains_key(k)
                    && final(self)@.objects[k] == old(self)@.objects[k],
            forall|k: (FileType, Id)| #[trigger]
                final(self)@.objects.contains_key(k) && !old(self)@.objects.contains_key(k) ==> k.0
                    == FileType::Pack || k.0 == FileType::Index || (k.0 == FileType::Snapshot
                    && r == Ok::<Id, Error>(k.1)),
            old(self)@.healthy() ==> final(self)@.healthy(),
            match r {
                Ok(sid) => {
                    &&& final(self)@.pending == Map::<Id, Pending>::empty()
                    &&& !old(self)@.objects.contains_key((FileType::Snapshot, sid))
                    &&& snapshot_in(final(self)@.objects, final(self)@.key, sid) == Some(snapshot@)
                    &&& final(self)@.roots() == old(self)@.roots().insert(snapshot.tree)
                    &&& final(self)@.index.contains_key(snapshot.tree)
                    &&& final(self)@.index[snapshot.tree].kind == BlobKind::Tree
                },
                Err(e) => {
                    &&& final(self)@.roots() == old(self)@.roots()
                    &&& e.kind == ErrorKind::NotFound || e.kind == ErrorKind::Invalid || e.kind
                        == ErrorKind::Entropy || e.kind == ErrorKind::Conflict || e.kind
                        == ErrorKind::BackendTransient
                    &&& e.kind == ErrorKind::NotFound ==> !old(self)@.has_tree(snapshot.tree)
                        && final(self)@.pending == Map::<Id, Pending>::empty()
                    &&& e.kind == ErrorKind::Invalid ==> old(self)@.has_tree(snapshot.tree)
                        && snapshot_bytes(snapshot@).len() > MAX_MESSAGE
                    &&& e.kind == ErrorKind::Conflict || e.kind == ErrorKind::Entropy ==> old(
                        self,
                    )@.pending != Map::<Id, Pending>::empty() || (old(self)@.has_tree(
                        snapshot.tree,
                    ) && snapshot_bytes(snapshot@).len() <= MAX_MESSAGE)
                    &&& e.kind == ErrorKind::BackendTransient ==> !old(self).reliable()
                },
            },
            r is Ok ==> old(self)@.has_tree(snapshot.tree) && snapshot_bytes(snapshot@).len()
                <= MAX_MESSAGE,
            old(self)@.pending == Map::<Id, Pending>::empty() ==> {
                &&& final(self)@.index == old(self)@.index
                &&& final(self)@.pending == old(self)@.pending
                &&& match r {
                    Ok(sid) => final(self)@.objects == old(self)@.objects.insert(
                        (FileType::Snapshot, sid),
                        final(self)@.objects[(FileType::Snapshot, sid)],
                    ),
                    Err(e) => final(self)@ == old(self)@,
                }
                &&& !old(self)@.has_tree(snapshot.tree) ==> (r matches Err(e) && e.kind
                    == ErrorKind::NotFound)
                &&& old(self)@.has_tree(snapshot.tree) && snapshot_bytes(snapshot@).len()
                    > MAX_MESSAGE ==> (r matches Err(e) && e.kind == ErrorKind::Invalid)
            },
    {
        let ghost v0 = self@;
        match self.flush() {
            Ok(()) => {},
            Err(e) => {
                return Err(e);
            },
        }
        let ghost v1 = self@;
        proof {
            // Nothing waits any more, so the index lists what the
            // repository had before: the same blobs, of the same kinds.
            assert(v1.pending == Map::<Id, Pending>::empty());
            assert(v0.world().contains_key(snapshot.tree) <==> v1.world().contains_key(
                snapshot.tree,
            ));
            assert(v1.world().contains_key(snapshot.tree) <==> v1.index.contains_key(
                snapshot.tree,
            ));
            if v0.world().contains_key(snapshot.tree) {
                assert(v1.world()[snapshot.tree].kind == v0.world()[snapshot.tree].kind);
                assert(v1.world()[snapshot.tree].kind == v1.index[snapshot.tree].kind);
            }
        }
        match self.index.get(&snapshot.tree) {
            Some(loc) => {
                if loc.kind != BlobKind::Tree {
                    return Err(Error::bare(ErrorKind::NotFound));
                }
            },
            None => {
                return Err(Error::bare(ErrorKind::NotFound));
            },
        }
        assert(v0.has_tree(snapshot.tree));
        let plain = snapshot.encode();
        let sealed = match encrypt(&self.key.bytes, plain.as_slice()) {
            Ok(s) => s,
            Err(e) => {
                return Err(e);
            },
        };
        let sid = Id::of(sealed.as_slice());
        match self.backend.write(FileType::Snapshot, &sid, sealed.as_slice()) {
            Ok(()) => {},
            Err(e) => {
                assert(self@ == v1);
                return Err(e);
            },
        }
        proof {
            let v2 = self@;
            assert(v2.objects =~= v1.objects.insert(
                (FileType::Snapshot, sid),
                v2.objects[(FileType::Snapshot, sid)],
            ));
            lemma_other_added(v1, v2, FileType::Snapshot, sid, sealed@);
            lemma_roots_insert_snapshot(v1.objects, sid, sealed@, v1.key);
            assert(snapshot_in(v2.objects, v2.key, sid) == Some(snapshot@));
            assert(roots_at(v2.objects, v2.key, sid, snapshot.tree));
            assert(v2.roots() =~= v1.roots().insert(snapshot.tree));
            crate::store::lemma_carries_trans(v0, v1, v2);
            if v0.healthy() {
                assert forall|t: Id| #[trigger] v2.roots().contains(t) implies v2.stored().contains_key(
                    t,
                ) by {
                    if t != snapshot.tree {
                        assert(v1.roots().contains(t));
                    }
                }
            }
        }
        Ok(sid)
    }

    /// Loads one snapshot. On a reliable backend this fails with
    /// `NotFound` exactly where there is no such snapshot and with
    /// `Corrupt` exactly where it cannot be read.
    pub fn load_snapshot(&self, sid: &Id) -> (r: Result<Snapshot, Error>)
        requires
            self.wf(),
        ensures
            match r {
                Ok(s) => snapshot_in(self@.objects, self@.key, *sid) == Some(s@),
                Err(e) => {
                    &&& e.context == Some((FileType::Snapshot, *sid))
                    &&& e.kind == ErrorKind::NotFound || e.kind == ErrorKind::Corrupt || e.kind
                        == ErrorKind::BackendTransient
                    &&& e.kind == ErrorKind::BackendTransient ==> !self.reliable()
                    &&& e.kind == ErrorKind::NotFound ==> !self@.objects.contains_key(
                        (FileType::Snapshot, *sid),
                    )
                    &&& e.kind == ErrorKind::Corrupt ==> self@.objects.contains_key(
                        (FileType::Snapshot, *sid),
                    ) && snapshot_in(self@.objects, self@.key, *sid) is None
                },
            },
    {
        let data = match self.backend.read_all(FileType::Snapshot, sid) {
            Ok(d) => d,
            Err(e) => {
                return Err(e);
            },
        };
        let plain = match decrypt(&self.key.bytes, data.as_slice()) {
            Ok(p) => p,
            Err(e) => {
                return Err(Error::at(ErrorKind::Corrupt, FileType::Snapshot, *sid));
            },
        };
        match Snapshot::decode(plain.as_slice()) {
            Some(s) => Ok(s),
            None => Err(Error::at(ErrorKind::Corrupt, FileType::Snapshot, *sid)),
        }
    }

    /// The addresses of all snapshots, each once.
    pub fn snapshot_ids(&self) -> (r: Result<Vec<Id>, Error>)
        requires
            self.wf(),
        ensures
            match r {
                Ok(ids) => {
                    &&& ids@.no_duplicates()
                    &&& forall|id: Id| #[trigger]
                        ids@.contains(id) <==> self@.objects.contains_key((FileType::Snapshot, id))
                },
                Err(e) => e.kind == ErrorKind::BackendTransient && !self.reliable(),
            },
    {
        self.backend.list(FileType::Snapshot)
    }

    /// All snapshots with their addresses. Fails with `Corrupt` where one
    /// of them cannot be read.
    pub fn snapshots(&self) -> (r: Result<Vec<(Id, Snapshot)>, Error>)
        requires
            self.wf(),
        ensures
            match r {
                Ok(list) => {
                    &&& forall|i: int|
                        0 <= i < list@.len() ==> snapshot_in(
                            self@.objects,
                            self@.key,
                            (#[trigger] list@[i]).0,
                        ) == Some(list@[i].1@)
                    &&& forall|id: Id|
                        self@.objects.contains_key((FileType::Snapshot, id)) ==> exists|i: int|
                            0 <= i < list@.len() && (#[trigger] list@[i]).0 == id
                },
                Err(e) => {
                    &&& e.kind == ErrorKind::Corrupt || e.kind == ErrorKind::BackendTransient
                    &&& e.kind == ErrorKind::BackendTransient ==> !self.reliable()
                    &&& e.kind == ErrorKind::Corrupt ==> exists|id: Id|
                        e.context == Some((FileType::Snapshot, id)) && #[trigger] self@.objects.contains_key(
                            (FileType::Snapshot, id),
                        ) && snapshot_in(self@.objects, self@.key, id) is None
                },
            },
    {
        let ids = match self.backend.list(FileType::Snapshot) {
            Ok(ids) => ids,
            Err(e) => {
                return Err(e);
            },
        };
        let mut list: Vec<(Id, Snapshot)> = Vec::new();
        let mut i: usize = 0;
        while i < ids.len()
            invariant
                i <= ids@.len(),
                self.wf(),
                list@.len() == i,
                forall|id: Id| #[trigger]
                    ids@.contains(id) <==> self@.objects.contains_key((FileType::Snapshot, id)),
                forall|j: int| 0 <= j < i ==> (#[trigger] list@[j]).0 == ids@[j],
                forall|j: int|
                    0 <= j < i ==> snapshot_in(self@.objects, self@.key, (#[trigger] list@[j]).0)
                        == Some(list@[j].1@),
            decreases ids@.len() - i,
        {
            let sid = ids[i];
            assert(ids@.contains(sid));
            match self.load_snapshot(&sid) {
                Ok(s) => {
                    list.push((sid, s));
                },
                Err(e) => {
                    if e.kind == ErrorKind::Corrupt {
                        return Err(e);
                    }
                    return Err(Error::at(ErrorKind::BackendTransient, FileType::Snapshot, sid));
                },
            }
            i += 1;
        }
        proof {
            assert forall|id: Id|
                self@.objects.contains_key((FileType::Snapshot, id)) implies exists|i: int|
                0 <= i < list@.len() && (#[trigger] list@[i]).0 == id by {
                assert(ids@.contains(id));
                let j = choose|j: int| 0 <= j < ids@.len() && ids@[j] == id;
                assert(list@[j].0 == id);
            }
        }
        Ok(list)
    }

    /// Removes a snapshot. No blob is removed: what only this snapshot
    /// reached stays until the repository is pruned.
    pub fn forget(&mut self, sid: &Id) -> (r: Result<(), Error>)
        requires
            old(self).wf(),
        ensures
            final(self).wf(),
            final(self).reliable() == old(self).reliable(),
            final(self).spec_config() == old(self).spec_config(),
            old(self)@.healthy() ==> final(self)@.healthy(),
            forall|t: Id| final(self)@.roots().contains(t) ==> old(self)@.roots().contains(t),
            match r {
                Ok(()) => {
                    &&& old(self)@.objects.contains_key((FileType::Snapshot, *sid))
                    &&& final(self)@ == (RepoView {
                        objects: old(self)@.objects.remove((FileType::Snapshot, *sid)),
                        ..old(self)@
                    })
                },
                Err(e) => {
                    &&& final(self)@ == old(self)@
                    &&& e.kind == ErrorKind::NotFound || e.kind == ErrorKind::BackendTransient
                    &&& e.kind == ErrorKind::NotFound ==> !old(self)@.objects.contains_key(
                        (FileType::Snapshot, *sid),
                    )
                    &&& e.kind == ErrorKind::BackendTransient ==> !old(self).reliable()
                },
            },
    {
        let ghost v0 = self@;
        match self.backend.remove(FileType::Snapshot, sid) {
            Ok(()) => {
                proof {
                    lemma_other_removed(v0, self@, FileType::Snapshot, *sid);
                }
                Ok(())
            },
            Err(e) => {
                assert(self@ == v0);
                Err(e)
            },
        }
    }

    /// Adds a key record that gives the master key up to `password`.
    /// Fails with `Invalid` exactly where the parameters are not valid,
    /// and with `Conflict` where the backend has a key record under the
    /// address of the new one; beyond that only as the backend or the
    /// random source fails. A failure changes nothing.
    pub fn add_key(&mut self, password: &[u8], params: &KdfParams) -> (r: Result<Id, Error>)
        requires
            old(self).wf(),
        ensures
            final(self).wf(),
            final(self).reliable() == old(self).reliable(),
            final(self).spec_config() == old(self).spec_config(),
            old(self)@.healthy() ==> final(self)@.healthy(),
            match r {
                Ok(rid) => {
                    &&& !old(self)@.objects.contains_key((FileType::Key, rid))
                    &&& key_gives(final(self)@.objects, rid, password@) == Some(old(self)@.key)
                    &&& old(self)@ == (RepoView {
                        objects: final(self)@.objects.remove((FileType::Key, rid)),
                        ..final(self)@
                    })
                },
                Err(e) => {
                    &&& final(self)@ == old(self)@
                    &&& e.kind == ErrorKind::Invalid <==> !params.valid()
                    &&& e.kind == ErrorKind::Invalid || e.kind == ErrorKind::Entropy || e.kind
                        == ErrorKind::Conflict || e.kind == ErrorKind::BackendTransient
                    &&& e.kind == ErrorKind::Conflict ==> (e.context matches Some(k) && k.0
                        == FileType::Key && old(self)@.objects.contains_key(k))
                    &&& e.kind == ErrorKind::BackendTransient ==> !old(self).reliable()
                },
            },
    {
        let ghost v0 = self@;
        let record = match new_record(&self.key, password, params) {
            Ok(r) => r,
            Err(e) => {
                return Err(e);
            },
        };
        let rid = Id::of(record.as_slice());
        match self.backend.write(FileType::Key, &rid, record.as_slice()) {
            Ok(()) => {
                proof {
                    lemma_other_added(v0, self@, FileType::Key, rid, record@);
                    assert(self@.objects[(FileType::Key, rid)] == record@);
                    assert(key_gives(self@.objects, rid, password@) == Some(v0.key));
                    assert(self@.objects.remove((FileType::Key, rid)) =~= v0.objects);
                }
                Ok(rid)
            },
            Err(e) => {
                assert(self@ == v0);
                Err(e)
            },
        }
    }

    /// The first key record, in the order in which the backend lists
    /// them, that opens under the password.
    pub fn find_key(&self, password: &[u8]) -> (r: Result<Option<Id>, Error>)
        requires
            self.wf(),
        ensures
            match r {
                Ok(Some(rid)) => key_gives(self@.objects, rid, password@) is Some,
                Ok(None) => locked(self@.objects, password@),
                Err(e) => e.kind == ErrorKind::BackendTransient && !self.reliable(),
            },
    {
        let (ids, records) = match Self::read_keys(&self.backend) {
            Ok(k) => k,
            Err(e) => {
                return Err(e);
            },
        };
        let mut i: usize = 0;
        while i < ids.len()
            invariant
                i <= ids@.len(),
                records@.len() == ids@.len(),
                forall|id: Id| #[trigger]
                    ids@.contains(id) <==> self@.objects.contains_key((FileType::Key, id)),
                forall|j: int|
                    0 <= j < ids@.len() ==> (#[trigger] records@[j])@ == self@.objects[(
                        FileType::Key,
                        ids@[j],
                    )],
                forall|j: int|
                    0 <= j < i ==> key_gives(self@.objects, #[trigger] ids@[j], password@) is None,
            decreases ids@.len() - i,
        {
            assert(ids@.contains(ids@[i as int]));
            match open_record(records[i].as_slice(), password) {
                Some(k) => {
                    return Ok(Some(ids[i]));
                },
                None => {},
            }
            i += 1;
        }
        proof {
            assert forall|rid: Id| #[trigger] key_gives(self@.objects, rid, password@) is None by {
                if self@.objects.contains_key((FileType::Key, rid)) {
                    assert(ids@.contains(rid));
                    let j = choose|j: int| 0 <= j < ids@.len() && ids@[j] == rid;
                    assert(key_gives(self@.objects, ids@[j], password@) is None);
                }
            }
        }
        Ok(None)
    }

    /// Removes a key record. The last key record is never removed:
    /// `Invalid`.
    pub fn remove_key(&mut self, rid: &Id) -> (r: Result<(), Error>)
        requires
            old(self).wf(),
        ensures
            final(self).wf(),
            final(self).reliable() == old(self).reliable(),
            final(self).spec_config() == old(self).spec_config(),
            old(self)@.healthy() ==> final(self)@.healthy(),
            match r {
                Ok(()) => {
                    &&& old(self)@.objects.contains_key((FileType::Key, *rid))
                    &&& exists|other: Id|
                        other != *rid && #[trigger] old(self)@.objects.contains_key(
                            (FileType::Key, other),
                        )
                    &&& final(self)@ == (RepoView {
                        objects: old(self)@.objects.remove((FileType::Key, *rid)),
                        ..old(self)@
                    })
                },
                Err(e) => {
                    &&& final(self)@ == old(self)@
                    &&& e.kind == ErrorKind::Invalid || e.kind == ErrorKind::NotFound || e.kind
                        == ErrorKind::BackendTransient
                    &&& e.kind == ErrorKind::NotFound ==> !old(self)@.objects.contains_key(
                        (FileType::Key, *rid),
                    )
                    &&& e.kind == ErrorKind::Invalid ==> forall|other: Id| #[trigger]
                        old(self)@.objects.contains_key((FileType::Key, other)) ==> other == *rid
                    &&& e.kind == ErrorKind::BackendTransient ==> !old(self).reliable()
                },
            },
    {
        let ghost v0 = self@;
        let ids = match self.backend.list(FileType::Key) {
            Ok(ids) => ids,
            Err(e) => {
                return Err(e);
            },
        };
        let mut other: Option<Id> = None;
        let mut i: usize = 0;
        while i < ids.len()
            invariant
                i <= ids@.len(),
                forall|j: int| 0 <= j < i && other is None ==> #[trigger] ids@[j] == *rid,
                other matches Some(o) ==> o != *rid && ids@.contains(o),
            decreases ids@.len() - i,
        {
            if !ids[i].same(rid) {
                other = Some(ids[i]);
                assert(ids@.contains(ids@[i as int]));
            }
            i += 1;
        }
        if other.is_none() {
            proof {
                assert forall|o: Id| #[trigger]
                    v0.objects.contains_key((FileType::Key, o)) implies o == *rid by {
                    assert(ids@.contains(o));
                    let j = choose|j: int| 0 <= j < ids@.len() && ids@[j] == o;
                }
            }
            return Err(Error::at(ErrorKind::Invalid, FileType::Key, *rid));
        }
        match self.backend.remove(FileType::Key, rid) {
            Ok(()) => {
                proof {
                    lemma_other_removed(v0, self@, FileType::Key, *rid);
                    assert(v0.objects.contains_key((FileType::Key, other.unwrap())));
                }
                Ok(())
            },
            Err(e) => {
                assert(self@ == v0);
                Err(e)
            },
        }
    }
}

/// The position of the latest snapshot of a list: one of the greatest
/// time, and of those the last.
pub fn latest(list: &Vec<(Id, Snapshot)>) -> (r: Option<usize>)
    ensures
        match r {
            None => list@.len() == 0,
            Some(p) => {
                &&& p < list@.len()
                &&& forall|i: int| 0 <= i < list@.len() ==> (#[trigger] list@[i]).1.time <= list@[p as int].1.time
                &&& forall|i: int| p < i < list@.len() ==> (#[trigger] list@[i]).1.time < list@[p as int].1.time
            },
        },
{
    if list.len() == 0 {
        return None;
    }
    let mut best: usize = 0;
    let mut i: usize = 1;
    while i < list.len()
        invariant
            1 <= i <= list@.len(),
            best < i,
            forall|j: int| 0 <= j < i ==> (#[trigger] list@[j]).1.time <= list@[best as int].1.time,
            forall|j: int| best < j < i ==> (#[trigger] list@[j]).1.time < list@[best as int].1.time,
        decreases list@.len() - i,
    {
        if list[i].1.time >= list[best].1.time {
            best = i;
        }
        i += 1;
    }
    Some(best)
}

} // verus!
