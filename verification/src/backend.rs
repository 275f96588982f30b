//! The storage capability that a repository lives on, and a backend that
//! keeps its objects in memory.

use crate::error::{Error, ErrorKind, FileType};
use crate::id::Id;
use vstd::prelude::*;

verus! {

/// The objects of a backend: bytes found by class and address.
pub type Objects = Map<(FileType, Id), Seq<u8>>;

/// Byte storage keyed by class and address. Objects are written once and
/// never amended.
///
/// A backend that is `reliable` never fails for the moment: each operation
/// then succeeds exactly when the objects allow it.
pub trait Backend {
    /// The objects that are stored. An implementation says what they are;
    /// the default stands for an implementation that says nothing.
    open spec fn objects(&self) -> Objects {
        Map::empty()
    }

    /// Whether the backend never reports `BackendTransient`.
    open spec fn reliable(&self) -> bool {
        false
    }

    /// The invariant of the implementation.
    open spec fn inv(&self) -> bool {
        true
    }

    /// The addresses of the objects of one class, each once.
    fn list(&self, file_type: FileType) -> (r: Result<Vec<Id>, Error>)
        requires
            self.inv(),
        ensures
            match r {
                Ok(ids) => {
                    &&& ids@.no_duplicates()
                    &&& forall|id: Id| #[trigger]
                        ids@.contains(id) <==> self.objects().contains_key((file_type, id))
                },
                Err(e) => e.kind == ErrorKind::BackendTransient && !self.reliable(),
            },
    ;

    /// The number of bytes of one object.
    fn size(&self, file_type: FileType, id: &Id) -> (r: Result<u64, Error>)
        requires
            self.inv(),
        ensures
            match r {
                Ok(n) => {
                    &&& self.objects().contains_key((file_type, *id))
                    &&& n == self.objects()[(file_type, *id)].len()
                },
                Err(e) => {
                    &&& e.context == Some((file_type, *id))
                    &&& e.kind == ErrorKind::NotFound || e.kind == ErrorKind::BackendTransient
                    &&& e.kind == ErrorKind::NotFound ==> !self.objects().contains_key(
                        (file_type, *id),
                    )
                    &&& e.kind == ErrorKind::BackendTransient ==> !self.reliable()
                },
            },
    ;

    /// The whole of one object.
    fn read_all(&self, file_type: FileType, id: &Id) -> (r: Result<Vec<u8>, Error>)
        requires
            self.inv(),
        ensures
            match r {
                Ok(data) => {
                    &&& self.objects().contains_key((file_type, *id))
                    &&& data@ == self.objects()[(file_type, *id)]
                },
                Err(e) => {
                    &&& e.context == Some((file_type, *id))
                    &&& e.kind == ErrorKind::NotFound || e.kind == ErrorKind::BackendTransient
                    &&& e.kind == ErrorKind::NotFound ==> !self.objects().contains_key(
                        (file_type, *id),
                    )
                    &&& e.kind == ErrorKind::BackendTransient ==> !self.reliable()
                },
            },
    ;

    /// `length` bytes of one object, starting at `offset`. A range that
    /// reaches beyond the object's end is `Corrupt`.
    fn read(&self, file_type: FileType, id: &Id, offset: u64, length: u64) -> (r: Result<
        Vec<u8>,
        Error,
    >)
        requires
            self.inv(),
        ensures
            match r {
                Ok(data) => {
                    &&& self.objects().contains_key((file_type, *id))
                    &&& offset + length <= self.objects()[(file_type, *id)].len()
                    &&& data@ == self.objects()[(file_type, *id)].subrange(
                        offset as int,
                        offset + length,
                    )
                },
                Err(e) => {
                    &&& e.context == Some((file_type, *id))
                    &&& match e.kind {
                        ErrorKind::NotFound => !self.objects().contains_key((file_type, *id)),
                        ErrorKind::Corrupt => {
                            &&& self.objects().contains_key((file_type, *id))
                            &&& offset + length > self.objects()[(file_type, *id)].len()
                        },
                        ErrorKind::BackendTransient => !self.reliable(),
                        _ => false,
                    }
                },
            },
    ;

    /// Stores a new object. Writing to an address that is taken fails with
    /// `Conflict`. A failed write leaves the objects as they were.
    fn write(&mut self, file_type: FileType, id: &Id, data: &[u8]) -> (r: Result<(), Error>)
        requires
            old(self).inv(),
        ensures
            final(self).inv(),
            final(self).reliable() == old(self).reliable(),
            match r {
                Ok(()) => {
                    &&& !old(self).objects().contains_key((file_type, *id))
                    &&& final(self).objects() == old(self).objects().insert(
                        (file_type, *id),
                        data@,
                    )
                },
                Err(e) => {
                    &&& final(self).objects() == old(self).objects()
                    &&& e.context == Some((file_type, *id))
                    &&& e.kind == ErrorKind::Conflict || e.kind == ErrorKind::BackendTransient
                    &&& e.kind == ErrorKind::Conflict ==> old(self).objects().contains_key(
                        (file_type, *id),
                    )
                    &&& e.kind == ErrorKind::BackendTransient ==> !old(self).reliable()
                },
            },
    ;

    /// Deletes an object. A failed removal leaves the objects as they were.
    fn remove(&mut self, file_type: FileType, id: &Id) -> (r: Result<(), Error>)
        requires
            old(self).inv(),
        ensures
            final(self).inv(),
            final(self).reliable() == old(self).reliable(),
            match r {
                Ok(()) => {
                    &&& old(self).objects().contains_key((file_type, *id))
                    &&& final(self).objects() == old(self).objects().remove((file_type, *id))
                },
                Err(e) => {
                    &&& final(self).objects() == old(self).objects()
                    &&& e.context == Some((file_type, *id))
                    &&& e.kind == ErrorKind::NotFound || e.kind == ErrorKind::BackendTransient
                    &&& e.kind == ErrorKind::NotFound ==> !old(self).objects().contains_key(
                        (file_type, *id),
                    )
                    &&& e.kind == ErrorKind::BackendTransient ==> !old(self).reliable()
                },
            },
    ;
}

/// One stored object.
#[derive(Clone, Debug)]
pub struct Stored {
    pub file_type: FileType,
    pub id: Id,
    pub data: Vec<u8>,
}

impl Stored {
    /// The class and address under which the object is stored.
    pub open spec fn key(self) -> (FileType, Id) {
        (self.file_type, self.id)
    }
}

/// Whether some item is stored under `k`.
pub open spec fn stored_under(items: Seq<Stored>, k: (FileType, Id)) -> bool {
    exists|i: int| 0 <= i < items.len() && (#[trigger] items[i]).key() == k
}

/// The position of the item stored under `k`, where there is one.
pub open spec fn place_of(items: Seq<Stored>, k: (FileType, Id)) -> int {
    choose|i: int| 0 <= i < items.len() && (#[trigger] items[i]).key() == k
}

/// No two items have the same class and address.
pub open spec fn distinct_keys(items: Seq<Stored>) -> bool {
    forall|i: int, j: int|
        0 <= i < j < items.len() ==> (#[trigger] items[i]).key() != (#[trigger] items[j]).key()
}

/// The objects that a sequence of items stands for.
pub open spec fn objects_of(items: Seq<Stored>) -> Objects {
    Map::new(
        |k: (FileType, Id)| stored_under(items, k),
        |k: (FileType, Id)| items[place_of(items, k)].data@,
    )
}

proof fn lemma_place(items: Seq<Stored>, k: (FileType, Id), i: int)
    requires
        distinct_keys(items),
        0 <= i < items.len(),
        items[i].key() == k,
    ensures
        stored_under(items, k),
        place_of(items, k) == i,
        objects_of(items).contains_key(k),
        objects_of(items)[k] == items[i].data@,
{
    let s = place_of(items, k);
    assert(0 <= s < items.len() && items[s].key() == k);
    if s < i {
        assert(items[s].key() != items[i].key());
    } else if i < s {
        assert(items[i].key() != items[s].key());
    }
}

/// Items with distinct keys stand for as many objects as there are items.
proof fn lemma_objects_len(items: Seq<Stored>)
    requires
        distinct_keys(items),
    ensures
        objects_of(items).dom().finite(),
        objects_of(items).dom().len() == items.len(),
    decreases items.len(),
{
    if items.len() == 0 {
        assert(objects_of(items).dom() =~= Set::<(FileType, Id)>::empty());
    } else {
        let front = items.drop_last();
        let last = items.last();
        assert(distinct_keys(front)) by {
            assert forall|i: int, j: int| 0 <= i < j < front.len() implies (
            #[trigger] front[i]).key() != (#[trigger] front[j]).key() by {
                assert(items[i].key() != items[j].key());
            }
        }
        lemma_objects_len(front);
        assert(!stored_under(front, last.key())) by {
            if stored_under(front, last.key()) {
                let i = place_of(front, last.key());
                assert(items[i].key() != items[items.len() - 1].key());
            }
        }
        assert forall|k: (FileType, Id)|
            objects_of(items).dom().contains(k) <==> objects_of(front).dom().insert(
                last.key(),
            ).contains(k) by {
            if stored_under(items, k) {
                let i = place_of(items, k);
                if i < front.len() {
                    assert(front[i].key() == k);
                }
            }
            if stored_under(front, k) {
                let i = place_of(front, k);
                assert(items[i].key() == k);
            }
            if k == last.key() {
                assert(items[items.len() - 1].key() == k);
            }
        }
        assert(objects_of(items).dom() =~= objects_of(front).dom().insert(last.key()));
    }
}

/// A backend that keeps its objects in memory. It is reliable.
#[derive(Clone, Debug)]
pub struct MemoryBackend {
    items: Vec<Stored>,
}

impl MemoryBackend {
    /// A backend without objects.
    pub fn new() -> (b: MemoryBackend)
        ensures
            b.inv(),
            b.reliable(),
            b.objects() == Objects::empty(),
    {
        let b = MemoryBackend { items: Vec::new() };
        assert(b.objects() =~= Objects::empty());
        b
    }

    /// The number of objects of all classes.
    pub fn count(&self) -> (n: usize)
        requires
            self.inv(),
        ensures
            self.objects().dom().finite(),
            n == self.objects().dom().len(),
    {
        proof {
            lemma_objects_len(self.items@);
        }
        self.items.len()
    }

    fn find(&self, file_type: FileType, id: &Id) -> (r: Option<usize>)
        requires
            self.inv(),
        ensures
            match r {
                Some(i) => {
                    &&& i < self.items@.len()
                    &&& self.items@[i as int].key() == (file_type, *id)
                    &&& self.objects().contains_key((file_type, *id))
                    &&& self.objects()[(file_type, *id)] == self.items@[i as int].data@
                },
                None => !self.objects().contains_key((file_type, *id)),
            },
    {
        let mut i: usize = 0;
        while i < self.items.len()
            invariant
                i <= self.items@.len(),
                self.inv(),
                forall|j: int| 0 <= j < i ==> (#[trigger] self.items@[j]).key() != (file_type, *id),
            decreases self.items@.len() - i,
        {
            if self.items[i].file_type == file_type && self.items[i].id.same(id) {
                proof {
                    lemma_place(self.items@, (file_type, *id), i as int);
                }
                return Some(i);
            }
            i += 1;
        }
        None
    }
}

impl Backend for MemoryBackend {
    closed spec fn objects(&self) -> Objects {
        objects_of(self.items@)
    }

    open spec fn reliable(&self) -> bool {
        true
    }

    closed spec fn inv(&self) -> bool {
        distinct_keys(self.items@)
    }

    fn list(&self, file_type: FileType) -> (r: Result<Vec<Id>, Error>) {
        let mut ids: Vec<Id> = Vec::new();
        let mut i: usize = 0;
        while i < self.items.len()
            invariant
                i <= self.items@.len(),
                self.inv(),
                ids@.no_duplicates(),
                forall|id: Id| #[trigger]
                    ids@.contains(id) <==> exists|j: int|
                        0 <= j < i && (#[trigger] self.items@[j]).key() == (file_type, id),
            decreases self.items@.len() - i,
        {
            if self.items[i].file_type == file_type {
                let id = self.items[i].id;
                let ghost before = ids@;
                proof {
                    if before.contains(id) {
                        let j = choose|j: int|
                            0 <= j < i && (#[trigger] self.items@[j]).key() == (file_type, id);
                        assert(self.items@[j].key() != self.items@[i as int].key());
                    }
                }
                ids.push(id);
                proof {
                    assert forall|x: Id| #[trigger]
                        ids@.contains(x) <==> exists|j: int|
                            0 <= j < i + 1 && (#[trigger] self.items@[j]).key() == (
                                file_type,
                                x,
                            ) by {
                        if ids@.contains(x) {
                            let a = choose|a: int| 0 <= a < ids@.len() && ids@[a] == x;
                            if a < before.len() {
                                assert(before[a] == x);
                                assert(before.contains(x));
                            } else {
                                assert(self.items@[i as int].key() == (file_type, x));
                            }
                        }
                        if exists|j: int|
                            0 <= j < i + 1 && (#[trigger] self.items@[j]).key() == (
                                file_type,
                                x,
                            ) {
                            let j = choose|j: int|
                                0 <= j < i + 1 && (#[trigger] self.items@[j]).key() == (
                                    file_type,
                                    x,
                                );
                            if j == i {
                                assert(ids@[before.len() as int] == x);
                            } else {
                                assert(before.contains(x));
                                let a = choose|a: int| 0 <= a < before.len() && before[a] == x;
                                assert(ids@[a] == x);
                            }
                        }
                    }
                    assert(ids@.no_duplicates()) by {
                        assert forall|a: int, b: int|
                            0 <= a < ids@.len() && 0 <= b < ids@.len() && a != b implies ids@[a]
                            != ids@[b] by {
                            if a == before.len() {
                                assert(before.contains(before[b]));
                            } else if b == before.len() {
                                assert(before.contains(before[a]));
                            }
                        }
                    }
                }
            } else {
                proof {
                    assert forall|x: Id| #[trigger]
                        ids@.contains(x) <==> exists|j: int|
                            0 <= j < i + 1 && (#[trigger] self.items@[j]).key() == (
                                file_type,
                                x,
                            ) by {
                        if exists|j: int|
                            0 <= j < i + 1 && (#[trigger] self.items@[j]).key() == (
                                file_type,
                                x,
                            ) {
                            let j = choose|j: int|
                                0 <= j < i + 1 && (#[trigger] self.items@[j]).key() == (
                                    file_type,
                                    x,
                                );
                            assert(j != i);
                        }
                    }
                }
            }
            i += 1;
        }
        Ok(ids)
    }

    fn size(&self, file_type: FileType, id: &Id) -> (r: Result<u64, Error>) {
        match self.find(file_type, id) {
            Some(i) => Ok(self.items[i].data.len() as u64),
            None => Err(Error::at(ErrorKind::NotFound, file_type, *id)),
        }
    }

    fn read_all(&self, file_type: FileType, id: &Id) -> (r: Result<Vec<u8>, Error>) {
        match self.find(file_type, id) {
            Some(i) => Ok(self.items[i].data.clone()),
            None => Err(Error::at(ErrorKind::NotFound, file_type, *id)),
        }
    }

    fn read(&self, file_type: FileType, id: &Id, offset: u64, length: u64) -> (r: Result<
        Vec<u8>,
        Error,
    >) {
        match self.find(file_type, id) {
            Some(i) => {
                let data = &self.items[i].data;
                let size = data.len() as u64;
                if offset > size || length > size - offset {
                    return Err(Error::at(ErrorKind::Corrupt, file_type, *id));
                }
                let from = offset as usize;
                let to = (offset + length) as usize;
                let mut out: Vec<u8> = Vec::new();
                let mut j: usize = from;
                while j < to
                    invariant
                        from <= j <= to <= data@.len(),
                        out@ == data@.subrange(from as int, j as int),
                    decreases to - j,
                {
                    out.push(data[j]);
                    assert(data@.subrange(from as int, j + 1) =~= data@.subrange(
                        from as int,
                        j as int,
                    ).push(data@[j as int]));
                    j += 1;
                }
                Ok(out)
            },
            None => Err(Error::at(ErrorKind::NotFound, file_type, *id)),
        }
    }

    fn write(&mut self, file_type: FileType, id: &Id, data: &[u8]) -> (r: Result<(), Error>) {
        match self.find(file_type, id) {
            Some(_) => Err(Error::at(ErrorKind::Conflict, file_type, *id)),
            None => {
                let ghost before = self.items@;
                let mut copy: Vec<u8> = Vec::new();
                let mut j: usize = 0;
                while j < data.len()
                    invariant
                        j <= data@.len(),
                        copy@ == data@.subrange(0, j as int),
                    decreases data@.len() - j,
                {
                    copy.push(data[j]);
                    assert(data@.subrange(0, j + 1) =~= data@.subrange(0, j as int).push(
                        data@[j as int],
                    ));
                    j += 1;
                }
                assert(data@.subrange(0, data@.len() as int) =~= data@);
                self.items.push(Stored { file_type, id: *id, data: copy });
                proof {
                    let k = (file_type, *id);
                    let after = self.items@;
                    assert(!stored_under(before, k));
                    assert(distinct_keys(after)) by {
                        assert forall|a: int, b: int| 0 <= a < b < after.len() implies (
                        #[trigger] after[a]).key() != (#[trigger] after[b]).key() by {
                            if b == before.len() {
                                assert(before[a].key() != k);
                            } else {
                                assert(before[a].key() != before[b].key());
                            }
                        }
                    }
                    assert forall|q: (FileType, Id)|
                        objects_of(after).contains_key(q) <==> (q == k || objects_of(
                            before,
                        ).contains_key(q)) by {
                        if stored_under(before, q) {
                            let a = place_of(before, q);
                            assert(after[a].key() == q);
                        }
                        if stored_under(after, q) {
                            let a = place_of(after, q);
                            if a < before.len() {
                                assert(before[a].key() == q);
                            }
                        }
                        assert(after[before.len() as int].key() == k);
                    }
                    assert forall|q: (FileType, Id)|
                        objects_of(before).contains_key(q) implies objects_of(after)[q]
                        == objects_of(before)[q] by {
                        let a = place_of(before, q);
                        assert(after[a] == before[a]);
                        lemma_place(after, q, a);
                    }
                    lemma_place(after, k, before.len() as int);
                    assert(objects_of(after) =~= objects_of(before).insert(k, data@));
                }
                Ok(())
            },
        }
    }

    fn remove(&mut self, file_type: FileType, id: &Id) -> (r: Result<(), Error>) {
        match self.find(file_type, id) {
            None => Err(Error::at(ErrorKind::NotFound, file_type, *id)),
            Some(i) => {
                let ghost before = self.items@;
                let _ = self.items.remove(i);
                proof {
                    let k = (file_type, *id);
                    let after = self.items@;
                    assert(after == before.remove(i as int));
                    assert forall|a: int| 0 <= a < after.len() implies #[trigger] after[a]
                        == before[if a < i {
                        a
                    } else {
                        a + 1
                    }] by {}
                    assert(distinct_keys(after)) by {
                        assert forall|a: int, b: int| 0 <= a < b < after.len() implies (
                        #[trigger] after[a]).key() != (#[trigger] after[b]).key() by {
                            let a0 = if a < i {
                                a
                            } else {
                                a + 1
                            };
                            let b0 = if b < i {
                                b
                            } else {
                                b + 1
                            };
                            assert(before[a0].key() != before[b0].key());
                        }
                    }
                    assert forall|q: (FileType, Id)|
                        objects_of(after).contains_key(q) <==> (q != k && objects_of(
                            before,
                        ).contains_key(q)) by {
                        if stored_under(after, q) {
                            let a = place_of(after, q);
                            let a0 = if a < i {
                                a
                            } else {
                                a + 1
                            };
                            assert(before[a0].key() == q);
                            if q == k {
                                assert(a0 != i);
                                if a0 < i {
                                    assert(before[a0].key() != before[i as int].key());
                                } else {
                                    assert(before[i as int].key() != before[a0].key());
                                }
                            }
                        }
                        if q != k && stored_under(before, q) {
                            let a0 = place_of(before, q);
                            let a = if a0 < i {
                                a0
                            } else {
                                a0 - 1
                            };
                            assert(after[a].key() == q);
                        }
                    }
                    assert forall|q: (FileType, Id)|
                        q != k && objects_of(before).contains_key(q) implies objects_of(after)[q]
                        == objects_of(before)[q] by {
                        let a0 = place_of(before, q);
                        let a = if a0 < i {
                            a0
                        } else {
                            a0 - 1
                        };
                        assert(after[a] == before[a0]);
                        lemma_place(after, q, a);
                    }
                    assert(objects_of(after) =~= objects_of(before).remove(k));
                }
                Ok(())
            },
        }
    }
}

} // verus!
