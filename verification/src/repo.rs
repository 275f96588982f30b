//! The repository: a backend, the master key, the index and the blobs that
//! wait to be packed.

use crate::backend::Backend;
use crate::blob::{blob_at, BlobKind, Entry, Location, opened_blob, seal_blob, segment};
use crate::chunker::ChunkerParams;
use crate::codec::{get_u64, lemma_u64_at_concat, put_u64, u64_at, u64_bytes};
use crate::compress::Compression;
use crate::crypto::{append, encrypt, fresh_secret, KdfParams, MAX_MESSAGE};
use crate::error::{Error, ErrorKind, FileType};
use crate::id::{digest, Id, zero_id};
use crate::idmap::IdMap;
use crate::keys::{
    lemma_unlocked_none, lemma_unlocked_some, MasterKey, new_record, record_opens, record_views,
    unlock, unlocked,
};
use crate::store::{
    bad_index, unreadable,
    file_entries, indexed, key_gives, lemma_entries_len, lemma_entries_round_trip,
    lemma_index_added, lemma_pack_added, lemma_same, lists, locked, pack_header, Pending,
    RepoView, write_entries,
};
use vstd::prelude::*;

verus! {

/// Bytes of a written configuration.
pub const CONFIG_LEN: usize = 34;

/// The version of the repository format.
pub const FORMAT_VERSION: u64 = 1;

/// The most blobs that wait to be packed at one time.
pub const MAX_QUEUED: usize = 0x1_0000;

/// Queued bytes at which a pack is written, unless chosen otherwise.
pub const PACK_LIMIT: usize = 0x100_0000;

/// The settings of a repository, fixed when it is created.
#[derive(Clone, Copy, Debug, PartialEq, Eq)]
pub struct Config {
    pub version: u64,
    pub chunker: ChunkerParams,
    pub compression: Compression,
}

impl Config {
    /// The settings that a repository can have: the format version of this
    /// library, valid chunk sizes, and a compression level of 10 at most.
    pub open spec fn valid(self) -> bool {
        &&& self.version == FORMAT_VERSION
        &&& self.chunker.valid()
        &&& self.compression matches Compression::Deflate(level) ==> level <= 10
    }

    /// Whether the settings are valid.
    pub fn is_valid(&self) -> (r: bool)
        ensures
            r == self.valid(),
    {
        self.version == FORMAT_VERSION && self.chunker.is_valid() && match self.compression {
            Compression::Stored => true,
            Compression::Deflate(level) => level <= 10,
        }
    }

    /// The settings that a new repository gets where nothing else is asked
    /// for.
    pub fn standard() -> (r: Config)
        ensures
            r.valid(),
    {
        Config {
            version: FORMAT_VERSION,
            chunker: ChunkerParams::standard(),
            compression: Compression::Deflate(6),
        }
    }
}

/// The 34 bytes of a configuration.
pub open spec fn config_bytes(c: Config) -> Seq<u8> {
    u64_bytes(c.version) + u64_bytes(c.chunker.min_size as u64) + u64_bytes(
        c.chunker.avg_size as u64,
    ) + u64_bytes(c.chunker.max_size as u64) + (match c.compression {
        Compression::Stored => seq![0u8, 0u8],
        Compression::Deflate(level) => seq![1u8, level],
    })
}

/// The valid configuration that 34 bytes stand for, or `None`.
pub open spec fn parse_config(b: Seq<u8>) -> Option<Config> {
    if b.len() != CONFIG_LEN || u64_at(b, 8) > usize::MAX || u64_at(b, 16) > u32::MAX || u64_at(
        b,
        24,
    ) > usize::MAX || b[32] > 1 {
        None
    } else {
        let c = Config {
            version: u64_at(b, 0),
            chunker: ChunkerParams {
                min_size: u64_at(b, 8) as usize,
                avg_size: u64_at(b, 16) as u32,
                max_size: u64_at(b, 24) as usize,
            },
            compression: if b[32] == 0 {
                Compression::Stored
            } else {
                Compression::Deflate(b[33])
            },
        };
        if c.valid() {
            Some(c)
        } else {
            None
        }
    }
}

/// Parsing a written configuration that is valid and stores its blobs
/// compressed, or uncompressed at level zero, gives it back.
pub proof fn lemma_config_round_trip(c: Config)
    requires
        c.valid(),
    ensures
        config_bytes(c).len() == CONFIG_LEN,
        parse_config(config_bytes(c)) == Some(c),
{
    let a = u64_bytes(c.version);
    let b = u64_bytes(c.chunker.min_size as u64);
    let d = u64_bytes(c.chunker.avg_size as u64);
    let e = u64_bytes(c.chunker.max_size as u64);
    let f = match c.compression {
        Compression::Stored => seq![0u8, 0u8],
        Compression::Deflate(level) => seq![1u8, level],
    };
    let all = config_bytes(c);
    lemma_u64_at_concat(Seq::empty(), c.version, b + d + e + f);
    assert(all =~= Seq::<u8>::empty() + a + (b + d + e + f));
    lemma_u64_at_concat(a, c.chunker.min_size as u64, d + e + f);
    assert(all =~= a + b + (d + e + f));
    lemma_u64_at_concat(a + b, c.chunker.avg_size as u64, e + f);
    assert(all =~= (a + b) + d + (e + f));
    lemma_u64_at_concat(a + b + d, c.chunker.max_size as u64, f);
    assert(all =~= (a + b + d) + e + f);
    assert(all[32] == f[0]);
    assert(all[33] == f[1]);
}

impl Config {
    /// Writes the configuration.
    pub fn encode(&self) -> (out: Vec<u8>)
        ensures
            out@ == config_bytes(*self),
    {
        let mut out: Vec<u8> = Vec::new();
        put_u64(&mut out, self.version);
        put_u64(&mut out, self.chunker.min_size as u64);
        put_u64(&mut out, self.chunker.avg_size as u64);
        put_u64(&mut out, self.chunker.max_size as u64);
        match self.compression {
            Compression::Stored => {
                out.push(0u8);
                out.push(0u8);
            },
            Compression::Deflate(level) => {
                out.push(1u8);
                out.push(level);
            },
        }
        assert(out@ =~= config_bytes(*self));
        out
    }

    /// Reads a configuration.
    pub fn decode(b: &[u8]) -> (r: Option<Config>)
        ensures
            r == parse_config(b@),
    {
        if b.len() != CONFIG_LEN {
            return None;
        }
        let version = get_u64(b, 0);
        let min = get_u64(b, 8);
        let avg = get_u64(b, 16);
        let max = get_u64(b, 24);
        if min > usize::MAX as u64 || avg > u32::MAX as u64 || max > usize::MAX as u64 || b[32]
            > 1 {
            return None;
        }
        let c = Config {
            version,
            chunker: ChunkerParams {
                min_size: min as usize,
                avg_size: avg as u32,
                max_size: max as usize,
            },
            compression: if b[32] == 0 {
                Compression::Stored
            } else {
                Compression::Deflate(b[33])
            },
        };
        if c.is_valid() {
            Some(c)
        } else {
            None
        }
    }
}

/// A blob that waits to be packed.
pub struct Queued {
    pub id: Id,
    pub kind: BlobKind,
    pub data: Vec<u8>,
}

/// The blobs that wait, by address.
pub open spec fn pending_of(queue: Seq<Queued>, queued: Map<Id, usize>) -> Map<Id, Pending> {
    Map::new(
        |id: Id| queued.contains_key(id),
        |id: Id|
            Pending { kind: queue[queued[id] as int].kind, data: queue[queued[id] as int].data@ },
    )
}

/// The queue and its map of positions fit each other, and each blob has
/// the address of its content.
pub open spec fn queue_ok(queue: Seq<Queued>, queued: Map<Id, usize>) -> bool {
    &&& forall|id: Id| #[trigger]
        queued.contains_key(id) ==> queued[id] < queue.len() && queue[queued[id] as int].id == id
    &&& forall|i: int|
        0 <= i < queue.len() ==> queued.contains_key((#[trigger] queue[i]).id) && queued[queue[i].id]
            == i
    &&& forall|i: int|
        0 <= i < queue.len() ==> {
            &&& (#[trigger] queue[i]).id@ == digest(queue[i].data@)
            &&& queue[i].data@.len() < MAX_MESSAGE
        }
}

/// A repository on a backend.
pub struct Repository<B: Backend> {
    pub backend: B,
    pub key: MasterKey,
    pub config: Config,
    pub index: IdMap<Location>,
    pub queue: Vec<Queued>,
    pub queued: IdMap<usize>,
    pub queued_bytes: usize,
    pub pack_limit: usize,
}

impl<B: Backend> View for Repository<B> {
    type V = RepoView;

    open spec fn view(&self) -> RepoView {
        RepoView {
            objects: self.backend.objects(),
            key: self.key@,
            index: self.index@,
            pending: pending_of(self.queue@, self.queued@),
        }
    }
}

/// What building a pack gives: the segments one after the other, and an
/// entry for each. The entries name no pack yet.
pub struct Built {
    pub body: Vec<u8>,
    pub entries: Vec<Entry>,
}

/// The entries lie in `body`, one for each queued blob in order, and each
/// segment opens to its blob.
pub open spec fn built_ok(key: Seq<u8>, queue: Seq<Queued>, body: Seq<u8>, entries: Seq<Entry>) -> bool {
    &&& entries.len() == queue.len()
    &&& body.len() <= u64::MAX
    &&& forall|i: int|
        0 <= i < entries.len() ==> {
            &&& (#[trigger] entries[i]).id == queue[i].id
            &&& entries[i].loc.kind == queue[i].kind
            &&& entries[i].loc.offset + entries[i].loc.length <= body.len()
            &&& opened_blob(
                key,
                body.subrange(
                    entries[i].loc.offset as int,
                    entries[i].loc.offset + entries[i].loc.length,
                ),
            ) == Some(queue[i].data@)
        }
}

/// The entries with `pack` as their pack.
pub open spec fn placed(entries: Seq<Entry>, pack: Id) -> Seq<Entry> {
    entries.map_values(
        |e: Entry|
            Entry {
                id: e.id,
                loc: Location {
                    pack,
                    offset: e.loc.offset,
                    length: e.loc.length,
                    kind: e.loc.kind,
                },
            },
    )
}

/// The entries with `pack` as their pack.
pub fn place(entries: &Vec<Entry>, pack: Id) -> (out: Vec<Entry>)
    ensures
        out@ == placed(entries@, pack),
{
    let mut out: Vec<Entry> = Vec::new();
    let mut i: usize = 0;
    while i < entries.len()
        invariant
            i <= entries@.len(),
            out@.len() == i,
            forall|j: int| 0 <= j < i ==> #[trigger] out@[j] == placed(entries@, pack)[j],
        decreases entries@.len() - i,
    {
        let e = entries[i];
        out.push(
            Entry {
                id: e.id,
                loc: Location {
                    pack,
                    offset: e.loc.offset,
                    length: e.loc.length,
                    kind: e.loc.kind,
                },
            },
        );
        i += 1;
    }
    assert(out@ =~= placed(entries@, pack));
    out
}

/// Some entry of the list has the address `id`.
pub open spec fn names(entries: Seq<Entry>, id: Id) -> bool {
    exists|i: int| 0 <= i < entries.len() && (#[trigger] entries[i]).id == id
}

/// Enters the entries into an index, later ones over earlier ones.
pub fn install(index: &mut IdMap<Location>, entries: &Vec<Entry>)
    requires
        old(index).wf(),
    ensures
        final(index).wf(),
        forall|id: Id| #[trigger]
            final(index)@.contains_key(id) <==> old(index)@.contains_key(id) || names(
                entries@,
                id,
            ),
        forall|id: Id|
            old(index)@.contains_key(id) && !names(entries@, id) ==> #[trigger] final(index)@[id]
                == old(index)@[id],
        forall|id: Id| #[trigger]
            names(entries@, id) ==> exists|i: int|
                0 <= i < entries@.len() && (#[trigger] entries@[i]).id == id && final(index)@[id]
                    == entries@[i].loc,
{
    let mut i: usize = 0;
    while i < entries.len()
        invariant
            i <= entries@.len(),
            index.wf(),
            forall|id: Id|
                index@.contains_key(id) <==> old(index)@.contains_key(id) || names(
                    entries@.take(i as int),
                    id,
                ),
            forall|id: Id|
                old(index)@.contains_key(id) && !names(entries@.take(i as int), id) ==> index@[id]
                    == old(index)@[id],
            forall|id: Id|
                names(entries@.take(i as int), id) ==> exists|j: int|
                    0 <= j < i && (#[trigger] entries@[j]).id == id && index@[id] == entries@[j].loc,
        decreases entries@.len() - i,
    {
        let e = entries[i];
        let ghost before = index@;
        let ghost done = entries@.take(i as int);
        let ghost next = entries@.take(i + 1);
        index.insert(e.id, e.loc);
        proof {
            assert(next[i as int] == e);
            assert forall|id: Id| names(next, id) <==> names(done, id) || id == e.id by {
                if names(next, id) {
                    let j = choose|j: int| 0 <= j < next.len() && (#[trigger] next[j]).id == id;
                    if j < i {
                        assert(done[j] == next[j]);
                    }
                }
                if names(done, id) {
                    let j = choose|j: int| 0 <= j < done.len() && (#[trigger] done[j]).id == id;
                    assert(next[j] == done[j]);
                }
            }
            assert forall|id: Id| names(next, id) implies exists|j: int|
                0 <= j < i + 1 && (#[trigger] entries@[j]).id == id && index@[id]
                    == entries@[j].loc by {
                if id == e.id {
                    assert(entries@[i as int].id == id);
                } else {
                    let j = choose|j: int|
                        0 <= j < i && (#[trigger] entries@[j]).id == id && before[id]
                            == entries@[j].loc;
                    assert(entries@[j].id == id);
                }
            }
        }
        i += 1;
    }
    assert(entries@.take(entries@.len() as int) =~= entries@);
}

impl<B: Backend> Repository<B> {
    /// The invariant of a repository.
    pub open spec fn wf(&self) -> bool {
        &&& self.backend.inv()
        &&& self.index.wf()
        &&& self.queued.wf()
        &&& self.config.valid()
        &&& queue_ok(self.queue@, self.queued@)
        &&& self.queue@.len() <= MAX_QUEUED
        &&& self@.apart()
        &&& self@.backed()
    }

    /// Whether the backend never fails for the moment.
    pub open spec fn reliable(&self) -> bool {
        self.backend.reliable()
    }

    /// Whether `count` more blobs of `len` bytes in all can wait without a
    /// pack being written: the queue has room for them and stays short of
    /// a pack's size.
    pub open spec fn room_for(&self, count: nat, len: nat) -> bool {
        self.queue@.len() + count <= MAX_QUEUED && self.queued_bytes + len < self.pack_limit
    }

    /// The settings of the repository.
    pub open spec fn spec_config(&self) -> Config {
        self.config
    }

    /// The settings of the repository.
    pub fn config(&self) -> (c: Config)
        ensures
            c == self.spec_config(),
    {
        self.config
    }

    /// The backend of the repository.
    pub fn backend(&self) -> (b: &B)
        ensures
            *b == self.backend,
            b.objects() == self@.objects,
            b.reliable() == self.reliable(),
            self.wf() ==> b.inv(),
    {
        &self.backend
    }

    /// Gives the backend back.
    pub fn into_backend(self) -> (b: B)
        ensures
            b == self.backend,
            b.objects() == self@.objects,
            b.reliable() == self.reliable(),
            self.wf() ==> b.inv(),
    {
        self.backend
    }

    /// The master key.
    pub fn master_key(&self) -> (k: MasterKey)
        ensures
            k@ == self@.key,
    {
        self.key
    }

    /// How many blobs the index lists.
    pub fn blob_count(&self) -> (n: usize)
        requires
            self.wf(),
        ensures
            n == self@.index.dom().len(),
    {
        self.index.len()
    }

    /// How many blobs wait to be packed.
    pub fn pending_count(&self) -> (n: usize)
        requires
            self.wf(),
        ensures
            n == self@.pending.dom().len(),
    {
        assert(self@.pending.dom() =~= self.queued@.dom());
        self.queued.len()
    }

    /// Where the index says that the blob `id` lies.
    pub fn locate(&self, id: &Id) -> (r: Option<Location>)
        requires
            self.wf(),
        ensures
            r == (if self@.index.contains_key(*id) {
                Some(self@.index[*id])
            } else {
                None
            }),
    {
        match self.index.get(id) {
            Some(loc) => Some(*loc),
            None => None,
        }
    }

    /// Whether the repository has the blob `id`, stored or waiting.
    pub fn has(&self, id: &Id) -> (r: bool)
        requires
            self.wf(),
        ensures
            r == self@.world().contains_key(*id),
    {
        self.index.contains(id) || self.queued.contains(id)
    }

    /// Builds the repository over a backend: reads every index file into
    /// the index in memory. Fails with `Corrupt` where an index file
    /// cannot be read.
    pub fn assemble(backend: B, key: MasterKey, config: Config) -> (r: Result<Repository<B>, Error>)
        requires
            backend.inv(),
            config.valid(),
        ensures
            match r {
                Ok(repo) => {
                    &&& repo.wf()
                    &&& repo@.synced()
                    &&& repo@.objects == backend.objects()
                    &&& repo@.key == key@
                    &&& repo@.pending == Map::<Id, Pending>::empty()
                    &&& repo.spec_config() == config
                    &&& repo.reliable() == backend.reliable()
                    &&& !bad_index(backend.objects(), key@)
                },
                Err(e) => {
                    &&& e.kind == ErrorKind::Corrupt || e.kind == ErrorKind::BackendTransient
                    &&& e.kind == ErrorKind::BackendTransient ==> !backend.reliable()
                    &&& e.kind == ErrorKind::Corrupt ==> exists|f: Id|
                        e.context == Some((FileType::Index, f)) && backend.objects().contains_key(
                            (FileType::Index, f),
                        ) && file_entries(key@, #[trigger] backend.objects()[(FileType::Index, f)])
                            is None
                },
            },
    {
        let files = match backend.list(FileType::Index) {
            Ok(f) => f,
            Err(e) => {
                return Err(e);
            },
        };
        let mut index: IdMap<Location> = IdMap::new();
        let ghost objects = backend.objects();
        let mut i: usize = 0;
        while i < files.len()
            invariant
                i <= files@.len(),
                backend.inv(),
                objects == backend.objects(),
                index.wf(),
                forall|f: Id| #[trigger]
                    files@.contains(f) <==> objects.contains_key((FileType::Index, f)),
                forall|id: Id| #[trigger]
                    index@.contains_key(id) ==> indexed(
                        objects,
                        key@,
                        Entry { id, loc: index@[id] },
                    ),
                forall|j: int, e: Entry|
                    0 <= j < i && #[trigger] lists(objects, key@, files@[j], e)
                        ==> index@.contains_key(e.id),
                forall|j: int|
                    0 <= j < i ==> file_entries(
                        key@,
                        #[trigger] objects[(FileType::Index, files@[j])],
                    ) is Some,
            decreases files@.len() - i,
        {
            let f = files[i];
            assert(files@.contains(f));
            let data = match backend.read_all(FileType::Index, &f) {
                Ok(d) => d,
                Err(e) => {
                    return Err(e);
                },
            };
            let plain = match crate::crypto::decrypt(&key.bytes, data.as_slice()) {
                Ok(p) => p,
                Err(e) => {
                    return Err(Error::at(ErrorKind::Corrupt, FileType::Index, f));
                },
            };
            let entries = match crate::store::read_entries(plain.as_slice()) {
                Some(es) => es,
                None => {
                    return Err(Error::at(ErrorKind::Corrupt, FileType::Index, f));
                },
            };
            let ghost before = index@;
            install(&mut index, &entries);
            proof {
                assert(file_entries(key@, objects[(FileType::Index, f)]) == Some(entries@));
                assert forall|id: Id| #[trigger] index@.contains_key(id) implies indexed(
                    objects,
                    key@,
                    Entry { id, loc: index@[id] },
                ) by {
                    if names(entries@, id) {
                        let j = choose|j: int|
                            0 <= j < entries@.len() && (#[trigger] entries@[j]).id == id
                                && index@[id] == entries@[j].loc;
                        assert(entries@[j] == Entry { id, loc: index@[id] });
                        assert(entries@.contains(entries@[j]));
                        assert(lists(objects, key@, f, entries@[j]));
                    } else {
                        assert(before.contains_key(id));
                        assert(index@[id] == before[id]);
                    }
                }
                assert forall|j: int, e: Entry|
                    0 <= j < i + 1 && #[trigger] lists(
                        objects,
                        key@,
                        files@[j],
                        e,
                    ) implies index@.contains_key(e.id) by {
                    if j == i {
                        let k = choose|k: int| 0 <= k < entries@.len() && entries@[k] == e;
                        assert(entries@[k].id == e.id);
                        assert(names(entries@, e.id));
                    } else {
                        assert(before.contains_key(e.id));
                    }
                }
            }
            i += 1;
        }
        let repo = Repository {
            backend,
            key,
            config,
            index,
            queue: Vec::new(),
            queued: IdMap::new(),
            queued_bytes: 0,
            pack_limit: PACK_LIMIT,
        };
        proof {
            assert forall|f: Id|
                objects.contains_key((FileType::Index, f)) implies #[trigger] file_entries(
                key@,
                objects[(FileType::Index, f)],
            ) is Some by {
                assert(files@.contains(f));
                let j = choose|j: int| 0 <= j < files@.len() && files@[j] == f;
                assert(file_entries(key@, objects[(FileType::Index, files@[j])]) is Some);
            }
            assert(repo@.pending =~= Map::<Id, Pending>::empty());
            assert forall|e: Entry| #[trigger]
                indexed(repo@.objects, repo@.key, e) implies repo@.index.contains_key(e.id) by {
                let f = choose|f: Id| #[trigger] lists(objects, key@, f, e);
                assert(files@.contains(f));
                let j = choose|j: int| 0 <= j < files@.len() && files@[j] == f;
                assert(lists(objects, key@, files@[j], e));
            }
        }
        Ok(repo)
    }

    /// Reads every key record of a backend.
    pub fn read_keys(backend: &B) -> (r: Result<(Vec<Id>, Vec<Vec<u8>>), Error>)
        requires
            backend.inv(),
        ensures
            match r {
                Ok((ids, records)) => {
                    &&& ids@.no_duplicates()
                    &&& forall|id: Id| #[trigger]
                        ids@.contains(id) <==> backend.objects().contains_key((FileType::Key, id))
                    &&& records@.len() == ids@.len()
                    &&& forall|i: int|
                        0 <= i < ids@.len() ==> (#[trigger] records@[i])@
                            == backend.objects()[(FileType::Key, ids@[i])]
                },
                Err(e) => e.kind == ErrorKind::BackendTransient && !backend.reliable(),
            },
    {
        let ids = match backend.list(FileType::Key) {
            Ok(ids) => ids,
            Err(e) => {
                return Err(e);
            },
        };
        let mut records: Vec<Vec<u8>> = Vec::new();
        let mut i: usize = 0;
        while i < ids.len()
            invariant
                i <= ids@.len(),
                backend.inv(),
                records@.len() == i,
                forall|id: Id| #[trigger]
                    ids@.contains(id) <==> backend.objects().contains_key((FileType::Key, id)),
                forall|j: int|
                    0 <= j < i ==> (#[trigger] records@[j])@ == backend.objects()[(
                        FileType::Key,
                        ids@[j],
                    )],
            decreases ids@.len() - i,
        {
            assert(ids@.contains(ids@[i as int]));
            match backend.read_all(FileType::Key, &ids[i]) {
                Ok(d) => {
                    records.push(d);
                },
                Err(e) => {
                    return Err(Error::at(ErrorKind::BackendTransient, FileType::Key, ids[i]));
                },
            }
            i += 1;
        }
        Ok((ids, records))
    }

    /// Opens the repository on a backend with a password. Fails with
    /// `AuthenticationFailed` where no key record opens under the
    /// password, with `NotFound` where there is no configuration and with
    /// `Corrupt` where the configuration or an index file cannot be read.
    /// On a reliable backend it succeeds where a record opens, the
    /// configuration is there and everything can be read.
    pub fn open(backend: B, password: &[u8]) -> (r: Result<Repository<B>, Error>)
        requires
            backend.inv(),
        ensures
            match r {
                Ok(repo) => {
                    &&& repo.wf()
                    &&& repo@.synced()
                    &&& repo@.objects == backend.objects()
                    &&& repo@.pending == Map::<Id, Pending>::empty()
                    &&& repo.reliable() == backend.reliable()
                    &&& !bad_index(repo@.objects, repo@.key)
                    &&& exists|rid: Id| #[trigger]
                        key_gives(backend.objects(), rid, password@) == Some(repo@.key)
                    &&& backend.objects().contains_key((FileType::Config, zero_id()))
                    &&& parse_config(backend.objects()[(FileType::Config, zero_id())]) == Some(
                        repo.spec_config(),
                    )
                },
                Err(e) => {
                    &&& e.kind == ErrorKind::AuthenticationFailed || e.kind == ErrorKind::NotFound
                        || e.kind == ErrorKind::Corrupt || e.kind == ErrorKind::BackendTransient
                    &&& e.kind == ErrorKind::BackendTransient ==> !backend.reliable()
                    &&& e.kind == ErrorKind::AuthenticationFailed ==> locked(
                        backend.objects(),
                        password@,
                    )
                    &&& backend.reliable() && locked(backend.objects(), password@) ==> e.kind
                        == ErrorKind::AuthenticationFailed
                    &&& e.kind == ErrorKind::NotFound ==> !locked(backend.objects(), password@)
                        && !backend.objects().contains_key((FileType::Config, zero_id()))
                    &&& e.kind == ErrorKind::Corrupt ==> !locked(backend.objects(), password@)
                        && unreadable(backend.objects(), password@)
                    &&& backend.reliable() && !locked(backend.objects(), password@)
                        && !backend.objects().contains_key((FileType::Config, zero_id()))
                        ==> e.kind == ErrorKind::NotFound
                },
            },
            backend.reliable() && !locked(backend.objects(), password@) && !unreadable(
                backend.objects(),
                password@,
            ) && backend.objects().contains_key((FileType::Config, zero_id())) ==> r is Ok,
    {
        let (ids, records) = match Self::read_keys(&backend) {
            Ok(k) => k,
            Err(e) => {
                return Err(e);
            },
        };
        let ghost views = record_views(records@);
        let key = match unlock(&records, password) {
            Ok(k) => k,
            Err(e) => {
                proof {
                    lemma_unlocked_none(views, password@);
                    assert forall|rid: Id| #[trigger]
                        key_gives(backend.objects(), rid, password@) is None by {
                        if backend.objects().contains_key((FileType::Key, rid)) {
                            assert(ids@.contains(rid));
                            let j = choose|j: int| 0 <= j < ids@.len() && ids@[j] == rid;
                            assert(views[j] == records@[j]@);
                        }
                    }
                }
                return Err(e);
            },
        };
        proof {
            lemma_unlocked_some(views, password@);
            let i = choose|i: int|
                0 <= i < views.len() && record_opens(#[trigger] views[i], password@) == unlocked(
                    views,
                    password@,
                );
            assert(views[i] == records@[i]@);
            assert(ids@.contains(ids@[i]));
            assert(key_gives(backend.objects(), ids@[i], password@) == Some(key@));
            assert(!locked(backend.objects(), password@));
        }
        let ghost rid = choose|rid: Id|
            key_gives(backend.objects(), rid, password@) == Some(key@);
        let zero = Id::zero();
        let bytes = match backend.read_all(FileType::Config, &zero) {
            Ok(b) => b,
            Err(e) => {
                return Err(e);
            },
        };
        let config = match Config::decode(bytes.as_slice()) {
            Some(c) => c,
            None => {
                return Err(Error::at(ErrorKind::Corrupt, FileType::Config, zero));
            },
        };
        let ghost objects = backend.objects();
        match Self::assemble(backend, key, config) {
            Ok(repo) => {
                assert(key_gives(objects, rid, password@) == Some(repo@.key));
                Ok(repo)
            },
            Err(e) => {
                proof {
                    if e.kind == ErrorKind::Corrupt {
                        let f = choose|f: Id|
                            e.context == Some((FileType::Index, f)) && objects.contains_key(
                                (FileType::Index, f),
                            ) && file_entries(key@, #[trigger] objects[(FileType::Index, f)])
                                is None;
                        assert(file_entries(
                            key_gives(objects, rid, password@).unwrap(),
                            objects[(FileType::Index, f)],
                        ) is None);
                        assert(unreadable(objects, password@));
                    }
                }
                Err(e)
            },
        }
    }

    /// Creates a repository on a backend that holds no configuration yet:
    /// draws a master key, writes a key record for the password and the
    /// configuration, and nothing else. Fails with `Invalid` exactly where the parameters or
    /// the configuration are not valid, with `Conflict` where the backend
    /// holds a configuration, and with `Corrupt` where it holds an index
    /// file, which cannot open under the new key; beyond that only as the
    /// backend or the random source fails.
    pub fn init(backend: B, password: &[u8], params: KdfParams, config: Config) -> (r: Result<
        Repository<B>,
        Error,
    >)
        requires
            backend.inv(),
        ensures
            match r {
                Ok(repo) => {
                    &&& repo.wf()
                    &&& repo@.synced()
                    &&& params.valid() && config.valid()
                    &&& repo@.pending == Map::<Id, Pending>::empty()
                    &&& repo.reliable() == backend.reliable()
                    &&& repo.spec_config() == config
                    &&& exists|rid: Id| #[trigger]
                        key_gives(repo@.objects, rid, password@) == Some(repo@.key)
                            && !backend.objects().contains_key((FileType::Key, rid))
                            && repo@.objects == backend.objects().insert(
                            (FileType::Key, rid),
                            repo@.objects[(FileType::Key, rid)],
                        ).insert(
                            (FileType::Config, zero_id()),
                            repo@.objects[(FileType::Config, zero_id())],
                        )
                    &&& repo@.objects.contains_key((FileType::Config, zero_id()))
                    &&& parse_config(repo@.objects[(FileType::Config, zero_id())]) == Some(config)
                    &&& forall|k: (FileType, Id)| #[trigger]
                        backend.objects().contains_key(k) ==> repo@.objects.contains_key(k)
                            && repo@.objects[k] == backend.objects()[k]
                    &&& forall|id: Id|
                        !backend.objects().contains_key((FileType::Config, id))
                    &&& backend.objects() == Map::<(FileType, Id), Seq<u8>>::empty()
                        ==> repo@.healthy() && repo@.index == Map::<Id, Location>::empty()
                },
                Err(e) => {
                    &&& e.kind == ErrorKind::Invalid <==> !(params.valid() && config.valid())
                    &&& e.kind == ErrorKind::Invalid || e.kind == ErrorKind::Conflict || e.kind
                        == ErrorKind::Entropy || e.kind == ErrorKind::Corrupt || e.kind
                        == ErrorKind::BackendTransient
                    &&& e.kind == ErrorKind::Corrupt ==> (e.context matches Some(k) && k.0
                        == FileType::Index && backend.objects().contains_key(k))
                    &&& e.kind == ErrorKind::Conflict ==> (e.context matches Some(k) && (k.0
                        == FileType::Config || k.0 == FileType::Key)
                        && backend.objects().contains_key(k))
                    &&& backend.reliable() && params.valid() && config.valid() && (exists|id: Id|
                        backend.objects().contains_key((FileType::Config, id))) ==> e.kind
                        == ErrorKind::Conflict
                    &&& e.kind == ErrorKind::BackendTransient ==> !backend.reliable()
                },
            },
    {
        if !params.is_valid() || !config.is_valid() {
            return Err(Error::bare(ErrorKind::Invalid));
        }
        let configs = match backend.list(FileType::Config) {
            Ok(c) => c,
            Err(e) => {
                return Err(e);
            },
        };
        if configs.len() > 0 {
            assert(configs@.contains(configs@[0]));
            return Err(Error::at(ErrorKind::Conflict, FileType::Config, configs[0]));
        }
        proof {
            assert forall|id: Id| !backend.objects().contains_key((FileType::Config, id)) by {
                if backend.objects().contains_key((FileType::Config, id)) {
                    assert(configs@.contains(id));
                }
            }
        }
        let secret = match fresh_secret() {
            Ok(s) => s,
            Err(e) => {
                return Err(e);
            },
        };
        let key = MasterKey { bytes: secret };
        let record = match new_record(&key, password, &params) {
            Ok(r) => r,
            Err(e) => {
                return Err(e);
            },
        };
        let rid = Id::of(record.as_slice());
        let mut backend = backend;
        let ghost o0 = backend.objects();
        match backend.write(FileType::Key, &rid, record.as_slice()) {
            Ok(()) => {},
            Err(e) => {
                return Err(e);
            },
        }
        let zero = Id::zero();
        let bytes = config.encode();
        match backend.write(FileType::Config, &zero, bytes.as_slice()) {
            Ok(()) => {},
            Err(e) => {
                return Err(e);
            },
        }
        proof {
            lemma_config_round_trip(config);
            assert(key_gives(backend.objects(), rid, password@) == Some(key@));
        }
        let ghost o2 = backend.objects();
        match Self::assemble(backend, key, config) {
            Ok(repo) => {
                proof {
                    assert(repo@.objects =~= o0.insert(
                        (FileType::Key, rid),
                        repo@.objects[(FileType::Key, rid)],
                    ).insert(
                        (FileType::Config, zero_id()),
                        repo@.objects[(FileType::Config, zero_id())],
                    ));
                    assert(key_gives(repo@.objects, rid, password@) == Some(repo@.key));
                    if o0 == Map::<(FileType, Id), Seq<u8>>::empty() {
                        let v = repo@;
                        assert forall|e: Entry| !indexed(v.objects, v.key, e) by {
                            if indexed(v.objects, v.key, e) {
                                let f = choose|f: Id| #[trigger] lists(v.objects, v.key, f, e);
                                assert(v.objects.contains_key((FileType::Index, f)));
                                assert(!o0.contains_key((FileType::Index, f)));
                            }
                        }
                        assert forall|id: Id| !v.index.contains_key(id) by {
                            if v.index.contains_key(id) {
                                assert(indexed(v.objects, v.key, v.entry(id)));
                            }
                        }
                        assert(v.index =~= Map::<Id, Location>::empty());
                        assert(v.world() =~= Map::<Id, crate::world::Blob>::empty());
                        assert forall|t: Id| !v.roots().contains(t) by {
                            if v.roots().contains(t) {
                                let sid = choose|sid: Id| #[trigger]
                                    crate::store::roots_at(v.objects, v.key, sid, t);
                                assert(v.objects.contains_key((FileType::Snapshot, sid)));
                                assert(!o0.contains_key((FileType::Snapshot, sid)));
                            }
                        }
                        assert forall|a: Id, b: Id| #[trigger]
                            crate::world::refs(v.world(), a).contains(b) implies v.world().contains_key(
                            b,
                        ) by {}
                    }
                }
                Ok(repo)
            },
            Err(e) => {
                proof {
                    if e.kind == ErrorKind::Corrupt {
                        let f = choose|f: Id|
                            e.context == Some((FileType::Index, f)) && o2.contains_key(
                                (FileType::Index, f),
                            ) && file_entries(key@, #[trigger] o2[(FileType::Index, f)]) is None;
                        assert(o0.contains_key((FileType::Index, f)));
                    }
                }
                Err(e)
            },
        }
    }

    /// Queues a blob unless the repository has one with its address.
    /// Nothing is written.
    pub(crate) fn add_blob(&mut self, kind: BlobKind, data: Vec<u8>) -> (id: Id)
        requires
            old(self).wf(),
            old(self).queue@.len() < MAX_QUEUED,
            data@.len() < MAX_MESSAGE,
        ensures
            final(self).wf(),
            final(self).reliable() == old(self).reliable(),
            final(self).spec_config() == old(self).spec_config(),
            final(self).pack_limit == old(self).pack_limit,
            final(self).queued_bytes <= old(self).queued_bytes + data@.len(),
            final(self).queue@.len() <= old(self).queue@.len() + 1,
            id@ == digest(data@),
            old(self)@.world().contains_key(id) ==> final(self)@ == old(self)@,
            !old(self)@.world().contains_key(id) ==> final(self)@ == (RepoView {
                pending: old(self)@.pending.insert(id, Pending { kind, data: data@ }),
                ..old(self)@
            }),
    {
        let id = Id::of(data.as_slice());
        if self.index.contains(&id) || self.queued.contains(&id) {
            return id;
        }
        let ghost before = *self;
        let pos = self.queue.len();
        let len = data.len();
        self.queued.insert(id, pos);
        self.queue.push(Queued { id, kind, data });
        self.queued_bytes = if self.queued_bytes > usize::MAX - len {
            usize::MAX
        } else {
            self.queued_bytes + len
        };
        proof {
            assert(queue_ok(self.queue@, self.queued@)) by {
                assert forall|k: Id| #[trigger] self.queued@.contains_key(k) implies self.queued@[k]
                    < self.queue@.len() && self.queue@[self.queued@[k] as int].id == k by {
                    if k != id {
                        assert(before.queued@.contains_key(k));
                        assert(self.queue@[before.queued@[k] as int] == before.queue@[before.queued@[k] as int]);
                    }
                }
                assert forall|i: int| 0 <= i < self.queue@.len() implies self.queued@.contains_key(
                    (#[trigger] self.queue@[i]).id,
                ) && self.queued@[self.queue@[i].id] == i && self.queue@[i].id@ == digest(
                    self.queue@[i].data@,
                ) && self.queue@[i].data@.len() < MAX_MESSAGE by {
                    if i < pos {
                        assert(self.queue@[i] == before.queue@[i]);
                        assert(before.queued@.contains_key(before.queue@[i].id));
                    }
                }
            }
            let want = RepoView {
                pending: before@.pending.insert(id, Pending { kind, data: data@ }),
                ..before@
            };
            assert forall|k: Id| self@.pending.contains_key(k) implies self@.pending[k]
                == want.pending[k] by {
                if k != id {
                    assert(before.queued@.contains_key(k));
                    assert(self.queue@[before.queued@[k] as int] == before.queue@[before.queued@[k] as int]);
                }
            }
            assert(self@.pending =~= want.pending);
            assert(self@ == want);
        }
        id
    }

    /// Seals a pack: appends the sealed list of entries and its length to
    /// the segments, and writes the pack under the address of its bytes.
    pub fn write_pack(&mut self, body: Vec<u8>, entries: &Vec<Entry>) -> (r: Result<Id, Error>)
        requires
            old(self).wf(),
            entries@.len() <= MAX_QUEUED,
        ensures
            final(self).wf(),
            final(self).reliable() == old(self).reliable(),
            final(self).spec_config() == old(self).spec_config(),
            final(self).queue == old(self).queue,
            final(self).queued == old(self).queued,
            final(self).index == old(self).index,
            match r {
                Ok(pack) => {
                    &&& !old(self)@.objects.contains_key((FileType::Pack, pack))
                    &&& final(self)@.objects.contains_key((FileType::Pack, pack))
                    &&& final(self)@.objects[(FileType::Pack, pack)].len() >= body@.len()
                    &&& final(self)@.objects[(FileType::Pack, pack)].subrange(
                        0,
                        body@.len() as int,
                    ) == body@
                    &&& final(self)@ == (RepoView {
                        objects: old(self)@.objects.insert(
                            (FileType::Pack, pack),
                            final(self)@.objects[(FileType::Pack, pack)],
                        ),
                        ..old(self)@
                    })
                    &&& pack_header(
                        final(self)@.key,
                        final(self)@.objects[(FileType::Pack, pack)],
                    ) == Some(entries@)
                },
                Err(e) => {
                    &&& final(self)@ == old(self)@
                    &&& e.kind == ErrorKind::Entropy || e.kind == ErrorKind::Conflict || e.kind
                        == ErrorKind::BackendTransient
                    &&& e.kind == ErrorKind::BackendTransient ==> !old(self).reliable()
                },
            },
    {
        let ghost v0 = self@;
        let mut bytes = body;
        let plain = write_entries(entries);
        proof {
            lemma_entries_len(entries@);
        }
        let header = match encrypt(&self.key.bytes, plain.as_slice()) {
            Ok(h) => h,
            Err(e) => {
                return Err(Error::bare(ErrorKind::Entropy));
            },
        };
        append(&mut bytes, header.as_slice());
        let ghost front = bytes@;
        put_u64(&mut bytes, header.len() as u64);
        proof {
            let h = header.len() as u64;
            assert(bytes@.len() == bytes.len());
            lemma_u64_at_concat(front, h, Seq::empty());
            assert(bytes@ =~= front + u64_bytes(h) + Seq::<u8>::empty());
            assert(bytes@.len() == front.len() + 8);
            assert(bytes@.subrange(bytes@.len() - 8 - h, bytes@.len() - 8) =~= header@);
            lemma_entries_round_trip(entries@);
        }
        let pack = Id::of(bytes.as_slice());
        match self.backend.write(FileType::Pack, &pack, bytes.as_slice()) {
            Ok(()) => {
                proof {
                    assert(bytes@.subrange(0, body@.len() as int) =~= body@);
                    lemma_pack_added(v0, self@, pack, bytes@);
                    assert(self@.objects =~= v0.objects.insert(
                        (FileType::Pack, pack),
                        self@.objects[(FileType::Pack, pack)],
                    ));
                }
                Ok(pack)
            },
            Err(e) => {
                assert(self@ == v0);
                Err(e)
            },
        }
    }

    /// Writes the queued blobs as one pack and lists them in a new index
    /// file. Where nothing waits, nothing is written. Where the pack or
    /// the index file cannot be written the blobs go on waiting.
    pub fn flush(&mut self) -> (r: Result<(), Error>)
        requires
            old(self).wf(),
        ensures
            final(self).wf(),
            final(self).reliable() == old(self).reliable(),
            final(self).spec_config() == old(self).spec_config(),
            final(self)@.key == old(self)@.key,
            final(self)@.grown_from(old(self)@),
            final(self)@.roots() == old(self)@.roots(),
            final(self)@.carries(old(self)@),
            forall|id: Id|
                final(self)@.world().contains_key(id) <==> old(self)@.world().contains_key(id),
            old(self)@.healthy() ==> final(self)@.healthy() && final(self)@.world() == old(self)@.world(),
            r is Ok ==> final(self)@.pending == Map::<Id, Pending>::empty(),
            r is Ok && old(self)@.pending != Map::<Id, Pending>::empty() ==> exists|
                pack: Id,
                file: Id,
            |
                #![trigger final(self)@.objects.contains_key((FileType::Pack, pack)), final(self)@.objects.contains_key((FileType::Index, file))]
                !old(self)@.objects.contains_key((FileType::Pack, pack))
                    && !old(self)@.objects.contains_key((FileType::Index, file))
                    && final(self)@.objects.dom() == old(self)@.objects.dom().insert(
                    (FileType::Pack, pack),
                ).insert((FileType::Index, file)),
            r is Err ==> final(self)@.pending == old(self)@.pending && final(self)@.index == old(self)@.index,
            old(self)@.pending == Map::<Id, Pending>::empty() ==> r is Ok && final(self)@ == old(self)@,
            r matches Err(e) ==> {
                &&& e.kind == ErrorKind::Entropy || e.kind == ErrorKind::Conflict || e.kind
                    == ErrorKind::BackendTransient
                &&& e.kind == ErrorKind::BackendTransient ==> !old(self).reliable()
            },
    {
        let ghost v0 = self@;
        proof {
            lemma_same(v0);
        }
        if self.queue.len() == 0 {
            proof {
                assert(self@.pending =~= Map::<Id, Pending>::empty());
            }
            return Ok(());
        }
        proof {
            assert(self.queued@.contains_key(self.queue@[0].id));
            assert(self@.pending.contains_key(self.queue@[0].id));
        }
        let built = match self.build_pack() {
            Ok(b) => b,
            Err(e) => {
                return Err(e);
            },
        };
        let body = built.body;
        let entries = built.entries;
        let ghost segs = body@;
        let pack = match self.write_pack(body, &entries) {
            Ok(p) => p,
            Err(e) => {
                return Err(e);
            },
        };
        let ghost v1 = self@;
        let ghost bytes = v1.objects[(FileType::Pack, pack)];
        proof {
            lemma_pack_added(v0, v1, pack, bytes);
            lemma_same(v1);
        }
        let listed = place(&entries, pack);
        let file_plain = write_entries(&listed);
        proof {
            lemma_entries_len(listed@);
        }
        let file = match encrypt(&self.key.bytes, file_plain.as_slice()) {
            Ok(f) => f,
            Err(e) => {
                return Err(Error::bare(ErrorKind::Entropy));
            },
        };
        let fid = Id::of(file.as_slice());
        match self.backend.write(FileType::Index, &fid, file.as_slice()) {
            Ok(()) => {},
            Err(e) => {
                assert(self@ == v1);
                return Err(e);
            },
        }
        let ghost queue = self.queue@;
        let ghost qm = self.queued@;
        install(&mut self.index, &listed);
        self.queue = Vec::new();
        self.queued = IdMap::new();
        self.queued_bytes = 0;
        proof {
            let v2 = self@;
            assert(v2.pending =~= Map::<Id, Pending>::empty());
            lemma_entries_round_trip(listed@);
            assert forall|i: int| 0 <= i < listed@.len() implies {
                &&& v1.pending.contains_key((#[trigger] listed@[i]).id)
                &&& v1.pending[listed@[i].id].kind == listed@[i].loc.kind
                &&& blob_at(v1.objects, v1.key, listed@[i].loc) == Some(
                    v1.pending[listed@[i].id].data,
                )
                &&& v2.index.contains_key(listed@[i].id)
                &&& v2.index[listed@[i].id] == listed@[i].loc
            } by {
                let e = entries@[i];
                assert(listed@[i].id == e.id);
                assert(e.id == queue[i].id);
                assert(qm.contains_key(queue[i].id) && qm[queue[i].id] == i);
                assert(bytes.subrange(e.loc.offset as int, e.loc.offset + e.loc.length)
                    =~= bytes.subrange(0, segs.len() as int).subrange(
                    e.loc.offset as int,
                    e.loc.offset + e.loc.length,
                ));
                assert(names(listed@, e.id));
                let j = choose|j: int|
                    0 <= j < listed@.len() && (#[trigger] listed@[j]).id == e.id && v2.index[e.id]
                        == listed@[j].loc;
                assert(listed@[j].id == entries@[j].id);
                assert(entries@[j].id == queue[j].id);
                assert(qm[queue[j].id] == j);
            }
            assert forall|id: Id| v1.pending.contains_key(id) implies exists|i: int|
                0 <= i < listed@.len() && (#[trigger] listed@[i]).id == id by {
                let i = qm[id] as int;
                assert(queue[i].id == id);
                assert(entries@[i].id == queue[i].id);
                assert(listed@[i].id == id);
            }
            assert forall|id: Id| names(listed@, id) implies v1.pending.contains_key(id) by {
                let i = choose|i: int| 0 <= i < listed@.len() && (#[trigger] listed@[i]).id == id;
                assert(v1.pending.contains_key(listed@[i].id));
            }
            assert forall|id: Id|
                v2.index.contains_key(id) <==> v1.index.contains_key(id)
                    || v1.pending.contains_key(id) by {
                if v1.pending.contains_key(id) {
                    let i = choose|i: int|
                        0 <= i < listed@.len() && (#[trigger] listed@[i]).id == id;
                    assert(names(listed@, id));
                }
            }
            assert forall|id: Id| v1.index.contains_key(id) implies v2.index[id]
                == v1.index[id] by {
                if names(listed@, id) {
                    assert(v1.pending.contains_key(id));
                }
            }
            lemma_index_added(v1, v2, fid, file@, listed@);
            assert(v2.grown_from(v0));
            assert(v2.objects.dom() =~= v0.objects.dom().insert((FileType::Pack, pack)).insert(
                (FileType::Index, fid),
            ));
            assert(v2.objects.contains_key((FileType::Pack, pack)));
            assert(v2.objects.contains_key((FileType::Index, fid)));
            assert(!v0.objects.contains_key((FileType::Index, fid)));
        }
        Ok(())
    }

    /// Seals the queued blobs one after the other. Nothing is written.
    fn build_pack(&self) -> (r: Result<Built, Error>)
        requires
            self.wf(),
        ensures
            match r {
                Ok(b) => built_ok(self@.key, self.queue@, b.body@, b.entries@),
                Err(e) => e == (Error { kind: ErrorKind::Entropy, context: None }),
            },
    {
        let mut body: Vec<u8> = Vec::new();
        let mut entries: Vec<Entry> = Vec::new();
        let mut i: usize = 0;
        while i < self.queue.len()
            invariant
                i <= self.queue@.len(),
                self.wf(),
                entries@.len() == i,
                forall|j: int|
                    0 <= j < i ==> {
                        &&& (#[trigger] entries@[j]).id == self.queue@[j].id
                        &&& entries@[j].loc.kind == self.queue@[j].kind
                        &&& entries@[j].loc.offset + entries@[j].loc.length <= body@.len()
                        &&& opened_blob(
                            self@.key,
                            body@.subrange(
                                entries@[j].loc.offset as int,
                                entries@[j].loc.offset + entries@[j].loc.length,
                            ),
                        ) == Some(self.queue@[j].data@)
                    },
            decreases self.queue@.len() - i,
        {
            let q = &self.queue[i];
            let stored = match seal_blob(&self.key, q.data.as_slice(), self.config.compression) {
                Ok(s) => s,
                Err(e) => {
                    return Err(Error::bare(ErrorKind::Entropy));
                },
            };
            let ghost before = body@;
            let ghost done = entries@;
            let offset = body.len();
            append(&mut body, stored.as_slice());
            entries.push(
                Entry {
                    id: q.id,
                    loc: Location {
                        pack: Id::zero(),
                        offset: offset as u64,
                        length: stored.len() as u64,
                        kind: q.kind,
                    },
                },
            );
            proof {
                assert(body@.subrange(offset as int, offset + stored@.len()) =~= stored@);
                assert forall|j: int| 0 <= j < i implies opened_blob(
                    self@.key,
                    body@.subrange(
                        (#[trigger] entries@[j]).loc.offset as int,
                        entries@[j].loc.offset + entries@[j].loc.length,
                    ),
                ) == Some(self.queue@[j].data@) by {
                    assert(entries@[j] == done[j]);
                    assert(body@.subrange(
                        done[j].loc.offset as int,
                        done[j].loc.offset + done[j].loc.length,
                    ) =~= before.subrange(
                        done[j].loc.offset as int,
                        done[j].loc.offset + done[j].loc.length,
                    ));
                }
            }
            i += 1;
        }
        assert(body@.len() == body.len());
        Ok(Built { body, entries })
    }
}

} // verus!
