//! What a repository is, as a mathematical value: the objects of its
//! backend, the master key, the index in memory and the blobs that wait to
//! be packed. The health of a repository is stated over this value.

use crate::backend::Objects;
use crate::blob::{
    blob_at, BlobKind, Entry, entry_bytes, lemma_entry_round_trip, Location, parse_entry,
    segment,
};
use crate::codec::{
    fields_bytes, fields_fit, lemma_fields_round_trip, parse_each, parse_fields, read_fields,
    u64_at, write_fields,
};
use crate::crypto::unsealed;
use crate::error::FileType;
use crate::id::{digest, Id, zero_id};
use crate::keys::record_opens;
use crate::repo::parse_config;
use crate::tree::{parse_snapshot, parse_tree, SnapshotView, tree_refs};
use crate::world::{Blob, closed, refs, rooted, sound, World};
use vstd::prelude::*;

verus! {

/// A list of entries as fields.
pub open spec fn entries_bytes(es: Seq<Entry>) -> Seq<u8> {
    fields_bytes(es.map_values(|e: Entry| entry_bytes(e)))
}

/// The entries that bytes list, or `None` where they are malformed.
pub open spec fn parse_entries(b: Seq<u8>) -> Option<Seq<Entry>> {
    match parse_fields(b) {
        None => None,
        Some(fs) => parse_each(fs, |f: Seq<u8>| parse_entry(f)),
    }
}

/// Parsing a written list of entries gives the entries back.
pub proof fn lemma_entries_round_trip(es: Seq<Entry>)
    ensures
        parse_entries(entries_bytes(es)) == Some(es),
{
    let fs = es.map_values(|e: Entry| entry_bytes(e));
    assert(fields_fit(fs)) by {
        assert forall|i: int| 0 <= i < fs.len() implies (#[trigger] fs[i]).len() <= u64::MAX by {
            lemma_entry_round_trip(es[i]);
        }
    }
    lemma_fields_round_trip(fs);
    let parse = |f: Seq<u8>| parse_entry(f);
    assert forall|i: int| 0 <= i < fs.len() implies (#[trigger] parse(fs[i])) == Some(es[i]) by {
        lemma_entry_round_trip(es[i]);
    }
    assert(parse_each(fs, parse).unwrap() =~= es);
}

/// A written list of entries takes 89 bytes for each entry.
pub proof fn lemma_entries_len(es: Seq<Entry>)
    ensures
        entries_bytes(es).len() == 89 * es.len(),
    decreases es.len(),
{
    let fs = es.map_values(|e: Entry| entry_bytes(e));
    if es.len() > 0 {
        let front = es.drop_last();
        lemma_entries_len(front);
        assert(fs.drop_last() =~= front.map_values(|e: Entry| entry_bytes(e)));
        assert(fs.last() == entry_bytes(es.last()));
        lemma_entry_round_trip(es.last());
        crate::codec::lemma_u64_round_trip(fs.last().len() as u64);
    }
}

/// Writes a list of entries.
pub fn write_entries(es: &Vec<Entry>) -> (out: Vec<u8>)
    ensures
        out@ == entries_bytes(es@),
{
    let mut fields: Vec<Vec<u8>> = Vec::new();
    let mut i: usize = 0;
    while i < es.len()
        invariant
            i <= es@.len(),
            fields@.len() == i,
            forall|j: int| 0 <= j < i ==> (#[trigger] fields@[j])@ == entry_bytes(es@[j]),
        decreases es@.len() - i,
    {
        fields.push(es[i].to_bytes());
        i += 1;
    }
    assert(fields@.map_values(|f: Vec<u8>| f@) =~= es@.map_values(|e: Entry| entry_bytes(e)));
    write_fields(&fields)
}

/// Reads a list of entries.
pub fn read_entries(b: &[u8]) -> (r: Option<Vec<Entry>>)
    ensures
        match r {
            Some(es) => parse_entries(b@) == Some(es@),
            None => parse_entries(b@) is None,
        },
{
    let fields = match read_fields(b) {
        Some(f) => f,
        None => {
            return None;
        },
    };
    let ghost fs = fields@.map_values(|f: Vec<u8>| f@);
    let ghost parse = |f: Seq<u8>| parse_entry(f);
    let mut es: Vec<Entry> = Vec::new();
    let mut i: usize = 0;
    while i < fields.len()
        invariant
            i <= fields@.len(),
            fs == fields@.map_values(|f: Vec<u8>| f@),
            parse_fields(b@) == Some(fs),
            parse == |f: Seq<u8>| parse_entry(f),
            es@.len() == i,
            forall|j: int| 0 <= j < i ==> parse(fs[j]) == Some(#[trigger] es@[j]),
        decreases fields@.len() - i,
    {
        match Entry::read(fields[i].as_slice()) {
            Some(e) => {
                assert(parse(fs[i as int]) == Some(e));
                es.push(e);
            },
            None => {
                assert(parse(fs[i as int]) is None);
                return None;
            },
        }
        i += 1;
    }
    assert forall|j: int| 0 <= j < fs.len() implies (#[trigger] parse(fs[j])) is Some by {
        assert(parse(fs[j]) == Some(es@[j]));
    }
    assert(parse_each(fs, parse).unwrap() =~= es@);
    Some(es)
}

/// The entries that the header of a pack lists, where the pack ends in a
/// header that is authentic and well-formed. The entries name no pack.
pub open spec fn pack_header(key: Seq<u8>, bytes: Seq<u8>) -> Option<Seq<Entry>> {
    if bytes.len() < 8 {
        None
    } else {
        let h = u64_at(bytes, bytes.len() - 8) as int;
        if h > bytes.len() - 8 {
            None
        } else {
            match unsealed(key, bytes.subrange(bytes.len() - 8 - h, bytes.len() - 8)) {
                Some(plain) => parse_entries(plain),
                None => None,
            }
        }
    }
}

/// The entries of an index file, where the file is authentic and
/// well-formed.
pub open spec fn file_entries(key: Seq<u8>, file: Seq<u8>) -> Option<Seq<Entry>> {
    match unsealed(key, file) {
        Some(plain) => parse_entries(plain),
        None => None,
    }
}

/// Whether the index file `f` exists and lists the entry.
pub open spec fn lists(objects: Objects, key: Seq<u8>, f: Id, e: Entry) -> bool {
    &&& objects.contains_key((FileType::Index, f))
    &&& file_entries(key, objects[(FileType::Index, f)]) is Some
    &&& file_entries(key, objects[(FileType::Index, f)]).unwrap().contains(e)
}

/// Whether some index file lists the entry.
pub open spec fn indexed(objects: Objects, key: Seq<u8>, e: Entry) -> bool {
    exists|f: Id| #[trigger] lists(objects, key, f, e)
}

/// The snapshot stored under `sid`, where there is one that can be read.
pub open spec fn snapshot_in(objects: Objects, key: Seq<u8>, sid: Id) -> Option<SnapshotView> {
    if objects.contains_key((FileType::Snapshot, sid)) {
        match unsealed(key, objects[(FileType::Snapshot, sid)]) {
            Some(plain) => parse_snapshot(plain),
            None => None,
        }
    } else {
        None
    }
}

/// Whether the snapshot `sid` can be read and has the root tree `t`.
pub open spec fn roots_at(objects: Objects, key: Seq<u8>, sid: Id, t: Id) -> bool {
    snapshot_in(objects, key, sid) is Some && snapshot_in(objects, key, sid).unwrap().tree == t
}

/// The root trees of the snapshots.
pub open spec fn roots(objects: Objects, key: Seq<u8>) -> Set<Id> {
    Set::new(|t: Id| exists|sid: Id| #[trigger] roots_at(objects, key, sid, t))
}

/// The master key that the key record `rid` gives up to a password.
pub open spec fn key_gives(objects: Objects, rid: Id, password: Seq<u8>) -> Option<Seq<u8>> {
    if objects.contains_key((FileType::Key, rid)) {
        record_opens(objects[(FileType::Key, rid)], password)
    } else {
        None
    }
}

/// No key record opens under the password.
pub open spec fn locked(objects: Objects, password: Seq<u8>) -> bool {
    forall|rid: Id| #[trigger] key_gives(objects, rid, password) is None
}

/// Whether what the password unlocks cannot be read: the configuration
/// is there and does not parse, or an index file does not open under a
/// key that a record gives up to the password.
pub open spec fn unreadable(objects: Objects, password: Seq<u8>) -> bool {
    ||| objects.contains_key((FileType::Config, zero_id())) && parse_config(
        objects[(FileType::Config, zero_id())],
    ) is None
    ||| exists|rid: Id, f: Id|
        key_gives(objects, rid, password) is Some && objects.contains_key((FileType::Index, f))
            && #[trigger] file_entries(
            key_gives(objects, rid, password).unwrap(),
            objects[(FileType::Index, f)],
        ) is None
}

/// Whether an index file is there that cannot be read under the key.
pub open spec fn bad_index(objects: Objects, key: Seq<u8>) -> bool {
    exists|f: Id|
        objects.contains_key((FileType::Index, f)) && #[trigger] file_entries(
            key,
            objects[(FileType::Index, f)],
        ) is None
}

/// A blob that waits to be packed.
pub struct Pending {
    pub kind: BlobKind,
    pub data: Seq<u8>,
}

/// A repository as a mathematical value.
pub struct RepoView {
    /// The objects of the backend.
    pub objects: Objects,
    /// The master key.
    pub key: Seq<u8>,
    /// The index in memory.
    pub index: Map<Id, Location>,
    /// The blobs that wait to be packed.
    pub pending: Map<Id, Pending>,
}

impl RepoView {
    /// The entry of the index in memory for `id`.
    pub open spec fn entry(self, id: Id) -> Entry {
        Entry { id, loc: self.index[id] }
    }

    /// What the index and the packs hold.
    pub open spec fn stored(self) -> World {
        Map::new(
            |id: Id| self.index.contains_key(id),
            |id: Id|
                Blob {
                    kind: self.index[id].kind,
                    content: blob_at(self.objects, self.key, self.index[id]),
                },
        )
    }

    /// The blobs of the repository: what the index and the packs hold,
    /// and what waits to be packed.
    pub open spec fn world(self) -> World {
        Map::new(
            |id: Id| self.index.contains_key(id) || self.pending.contains_key(id),
            |id: Id|
                if self.pending.contains_key(id) {
                    Blob { kind: self.pending[id].kind, content: Some(self.pending[id].data) }
                } else {
                    self.stored()[id]
                },
        )
    }

    /// Whether the repository has a tree under `id`, stored or waiting.
    pub open spec fn has_tree(self, id: Id) -> bool {
        self.world().contains_key(id) && self.world()[id].kind == BlobKind::Tree
    }

    /// The content of the blob `id`, where the repository has it.
    pub open spec fn plain(self, id: Id) -> Option<Seq<u8>> {
        if self.world().contains_key(id) {
            self.world()[id].content
        } else {
            None
        }
    }

    /// The root trees of the snapshots.
    pub open spec fn roots(self) -> Set<Id> {
        roots(self.objects, self.key)
    }

    /// Each entry of the index in memory stands in an index file.
    pub open spec fn backed(self) -> bool {
        forall|id: Id| #[trigger]
            self.index.contains_key(id) ==> indexed(self.objects, self.key, self.entry(id))
    }

    /// Every address that an index file lists has an entry in memory.
    pub open spec fn aware(self) -> bool {
        forall|e: Entry| #[trigger]
            indexed(self.objects, self.key, e) ==> self.index.contains_key(e.id)
    }

    /// The index in memory lists what the index files list.
    pub open spec fn synced(self) -> bool {
        self.backed() && self.aware()
    }

    /// Every entry that an index file lists agrees with the index in memory
    /// on the kind and on the content of its blob.
    pub open spec fn coherent(self) -> bool {
        forall|e: Entry| #[trigger]
            indexed(self.objects, self.key, e) ==> {
                &&& self.index.contains_key(e.id)
                &&& e.loc.kind == self.index[e.id].kind
                &&& blob_at(self.objects, self.key, e.loc) == blob_at(
                    self.objects,
                    self.key,
                    self.index[e.id],
                )
            }
    }

    /// No blob waits to be packed that the index has.
    pub open spec fn apart(self) -> bool {
        forall|id: Id| #[trigger] self.pending.contains_key(id) ==> !self.index.contains_key(id)
    }

    /// Every blob that `old` has is still there, of the same kind and,
    /// where it could be read, with the same content.
    pub open spec fn carries(self, old: RepoView) -> bool {
        forall|id: Id| #[trigger]
            old.world().contains_key(id) ==> {
                &&& self.world().contains_key(id)
                &&& self.world()[id].kind == old.world()[id].kind
                &&& old.world()[id].content is Some ==> self.world()[id].content
                    == old.world()[id].content
            }
    }

    /// Every object that `old` has is still there, unchanged, and every
    /// other object is a pack or an index file.
    pub open spec fn grown_from(self, old: RepoView) -> bool {
        &&& forall|k: (FileType, Id)| #[trigger]
            old.objects.contains_key(k) ==> self.objects.contains_key(k) && self.objects[k]
                == old.objects[k]
        &&& forall|k: (FileType, Id)| #[trigger]
            self.objects.contains_key(k) && !old.objects.contains_key(k) ==> k.0 == FileType::Pack
                || k.0 == FileType::Index
    }

    /// The repository is healthy: every blob can be read and is what its
    /// address says, trees name only blobs that are there, the root of
    /// every snapshot is stored, and the index files agree with each other.
    pub open spec fn healthy(self) -> bool {
        &&& sound(self.world())
        &&& closed(self.world())
        &&& rooted(self.stored(), self.roots())
        &&& self.coherent()
    }
}

/// A written object that is no pack leaves every segment as it was.
pub proof fn lemma_blob_at_insert(
    objects: Objects,
    file_type: FileType,
    id: Id,
    data: Seq<u8>,
    key: Seq<u8>,
    loc: Location,
)
    requires
        file_type != FileType::Pack || id != loc.pack,
    ensures
        blob_at(objects.insert((file_type, id), data), key, loc) == blob_at(objects, key, loc),
{
}

/// A removed object that is no pack leaves every segment as it was.
pub proof fn lemma_blob_at_remove(
    objects: Objects,
    file_type: FileType,
    id: Id,
    key: Seq<u8>,
    loc: Location,
)
    requires
        file_type != FileType::Pack || id != loc.pack,
    ensures
        blob_at(objects.remove((file_type, id)), key, loc) == blob_at(objects, key, loc),
{
}

/// A written object that is no index file leaves the listed entries as
/// they were.
pub proof fn lemma_indexed_insert_other(
    objects: Objects,
    file_type: FileType,
    id: Id,
    data: Seq<u8>,
    key: Seq<u8>,
)
    requires
        file_type != FileType::Index,
    ensures
        forall|e: Entry|
            indexed(objects.insert((file_type, id), data), key, e) == indexed(objects, key, e),
{
    let after = objects.insert((file_type, id), data);
    assert forall|e: Entry| indexed(after, key, e) == indexed(objects, key, e) by {
        if indexed(after, key, e) {
            let f = choose|f: Id| #[trigger] lists(after, key, f, e);
            assert(lists(objects, key, f, e));
        }
        if indexed(objects, key, e) {
            let f = choose|f: Id| #[trigger] lists(objects, key, f, e);
            assert(lists(after, key, f, e));
        }
    }
}

/// A removed object that is no index file leaves the listed entries as
/// they were.
pub proof fn lemma_indexed_remove_other(
    objects: Objects,
    file_type: FileType,
    id: Id,
    key: Seq<u8>,
)
    requires
        file_type != FileType::Index,
    ensures
        forall|e: Entry|
            indexed(objects.remove((file_type, id)), key, e) == indexed(objects, key, e),
{
    let after = objects.remove((file_type, id));
    assert forall|e: Entry| indexed(after, key, e) == indexed(objects, key, e) by {
        if indexed(after, key, e) {
            let f = choose|f: Id| #[trigger] lists(after, key, f, e);
            assert(lists(objects, key, f, e));
        }
        if indexed(objects, key, e) {
            let f = choose|f: Id| #[trigger] lists(objects, key, f, e);
            assert(lists(after, key, f, e));
        }
    }
}

/// A new index file adds its entries to the listed ones.
pub proof fn lemma_indexed_insert_index(objects: Objects, f: Id, data: Seq<u8>, key: Seq<u8>)
    requires
        !objects.contains_key((FileType::Index, f)),
    ensures
        forall|e: Entry| #[trigger]
            indexed(objects.insert((FileType::Index, f), data), key, e) <==> (indexed(
                objects,
                key,
                e,
            ) || (file_entries(key, data) is Some && file_entries(key, data).unwrap().contains(e))),
{
    let after = objects.insert((FileType::Index, f), data);
    assert forall|e: Entry|
        indexed(after, key, e) <==> (indexed(objects, key, e) || (file_entries(key, data) is Some
            && file_entries(key, data).unwrap().contains(e))) by {
        if indexed(after, key, e) {
            let g = choose|g: Id| #[trigger] lists(after, key, g, e);
            if g != f {
                assert(lists(objects, key, g, e));
            }
        }
        if indexed(objects, key, e) {
            let g = choose|g: Id| #[trigger] lists(objects, key, g, e);
            assert(lists(after, key, g, e));
        }
        if file_entries(key, data) is Some && file_entries(key, data).unwrap().contains(e) {
            assert(lists(after, key, f, e));
        }
    }
}

/// A written object that is no snapshot leaves the roots as they were.
pub proof fn lemma_roots_insert_other(
    objects: Objects,
    file_type: FileType,
    id: Id,
    data: Seq<u8>,
    key: Seq<u8>,
)
    requires
        file_type != FileType::Snapshot,
    ensures
        roots(objects.insert((file_type, id), data), key) == roots(objects, key),
{
    let after = objects.insert((file_type, id), data);
    assert forall|t: Id| roots(after, key).contains(t) == roots(objects, key).contains(t) by {
        if roots(after, key).contains(t) {
            let sid = choose|sid: Id| #[trigger] roots_at(after, key, sid, t);
            assert(roots_at(objects, key, sid, t));
        }
        if roots(objects, key).contains(t) {
            let sid = choose|sid: Id| #[trigger] roots_at(objects, key, sid, t);
            assert(roots_at(after, key, sid, t));
        }
    }
    assert(roots(after, key) =~= roots(objects, key));
}

/// A removed object that is no snapshot leaves the roots as they were.
pub proof fn lemma_roots_remove_other(objects: Objects, file_type: FileType, id: Id, key: Seq<u8>)
    requires
        file_type != FileType::Snapshot,
    ensures
        roots(objects.remove((file_type, id)), key) == roots(objects, key),
{
    let after = objects.remove((file_type, id));
    assert forall|t: Id| roots(after, key).contains(t) == roots(objects, key).contains(t) by {
        if roots(after, key).contains(t) {
            let sid = choose|sid: Id| #[trigger] roots_at(after, key, sid, t);
            assert(roots_at(objects, key, sid, t));
        }
        if roots(objects, key).contains(t) {
            let sid = choose|sid: Id| #[trigger] roots_at(objects, key, sid, t);
            assert(roots_at(after, key, sid, t));
        }
    }
    assert(roots(after, key) =~= roots(objects, key));
}

/// A new snapshot adds its root tree to the roots, where it can be read,
/// and nothing else.
pub proof fn lemma_roots_insert_snapshot(objects: Objects, sid: Id, data: Seq<u8>, key: Seq<u8>)
    requires
        !objects.contains_key((FileType::Snapshot, sid)),
    ensures
        forall|t: Id|
            roots(objects.insert((FileType::Snapshot, sid), data), key).contains(t) <==> (roots(
                objects,
                key,
            ).contains(t) || roots_at(
                objects.insert((FileType::Snapshot, sid), data),
                key,
                sid,
                t,
            )),
{
    let after = objects.insert((FileType::Snapshot, sid), data);
    assert forall|t: Id|
        roots(after, key).contains(t) <==> (roots(objects, key).contains(t) || roots_at(
            after,
            key,
            sid,
            t,
        )) by {
        if roots(after, key).contains(t) {
            let s = choose|s: Id| #[trigger] roots_at(after, key, s, t);
            if s != sid {
                assert(roots_at(objects, key, s, t));
            }
        }
        if roots(objects, key).contains(t) {
            let s = choose|s: Id| #[trigger] roots_at(objects, key, s, t);
            assert(s != sid);
            assert(roots_at(after, key, s, t));
        }
    }
}

/// A removed snapshot adds no root.
pub proof fn lemma_roots_remove_snapshot(objects: Objects, sid: Id, key: Seq<u8>)
    ensures
        forall|t: Id|
            roots(objects.remove((FileType::Snapshot, sid)), key).contains(t) ==> roots(
                objects,
                key,
            ).contains(t),
{
    let after = objects.remove((FileType::Snapshot, sid));
    assert forall|t: Id| roots(after, key).contains(t) implies roots(objects, key).contains(t) by {
        let s = choose|s: Id| #[trigger] roots_at(after, key, s, t);
        assert(roots_at(objects, key, s, t));
    }
}

/// A repository carries itself and has grown from itself.
pub proof fn lemma_same(v: RepoView)
    ensures
        v.carries(v),
        v.grown_from(v),
{
}

/// What carries what carries a repository carries the repository.
pub proof fn lemma_carries_trans(a: RepoView, b: RepoView, c: RepoView)
    requires
        b.carries(a),
        c.carries(b),
    ensures
        c.carries(a),
{
    assert forall|id: Id| #[trigger] a.world().contains_key(id) implies {
        &&& c.world().contains_key(id)
        &&& c.world()[id].kind == a.world()[id].kind
        &&& a.world()[id].content is Some ==> c.world()[id].content == a.world()[id].content
    } by {
        assert(b.world().contains_key(id));
    }
}

/// What has grown from what has grown from a repository has grown from
/// the repository.
pub proof fn lemma_grown_trans(a: RepoView, b: RepoView, c: RepoView)
    requires
        b.grown_from(a),
        c.grown_from(b),
    ensures
        c.grown_from(a),
{
    assert forall|k: (FileType, Id)| #[trigger] a.objects.contains_key(k) implies c.objects.contains_key(
        k,
    ) && c.objects[k] == a.objects[k] by {
        assert(b.objects.contains_key(k));
    }
    assert forall|k: (FileType, Id)| #[trigger]
        c.objects.contains_key(k) && !a.objects.contains_key(k) implies k.0 == FileType::Pack
        || k.0 == FileType::Index by {
        if b.objects.contains_key(k) {
        }
    }
}

/// Writing a pack that no index file lists yet changes nothing that the
/// repository holds.
pub proof fn lemma_pack_added(old: RepoView, new: RepoView, pack: Id, bytes: Seq<u8>)
    requires
        !old.objects.contains_key((FileType::Pack, pack)),
        new == (RepoView { objects: old.objects.insert((FileType::Pack, pack), bytes), ..old }),
        old.backed(),
        old.apart(),
    ensures
        new.backed(),
        old.aware() ==> new.aware(),
        new.roots() == old.roots(),
        new.grown_from(old),
        new.carries(old),
        forall|id: Id| new.world().contains_key(id) <==> old.world().contains_key(id),
        old.healthy() ==> new.healthy() && new.world() == old.world(),
        forall|loc: Location|
            loc.pack != pack ==> #[trigger] blob_at(new.objects, new.key, loc) == blob_at(
                old.objects,
                old.key,
                loc,
            ),
{
    lemma_indexed_insert_other(old.objects, FileType::Pack, pack, bytes, old.key);
    lemma_roots_insert_other(old.objects, FileType::Pack, pack, bytes, old.key);
    assert(new.objects == old.objects.insert((FileType::Pack, pack), bytes));
    assert forall|e: Entry| indexed(new.objects, new.key, e) == indexed(
        old.objects,
        old.key,
        e,
    ) by {}
    assert forall|id: Id| #[trigger] new.index.contains_key(id) implies indexed(
        new.objects,
        new.key,
        new.entry(id),
    ) by {
        assert(indexed(old.objects, old.key, old.entry(id)));
    }
    if old.aware() {
        assert forall|e: Entry| #[trigger]
            indexed(new.objects, new.key, e) implies new.index.contains_key(e.id) by {
            assert(indexed(old.objects, old.key, e));
        }
    }
    assert forall|id: Id| #[trigger] old.world().contains_key(id) implies {
        &&& new.world().contains_key(id)
        &&& new.world()[id].kind == old.world()[id].kind
        &&& old.world()[id].content is Some ==> new.world()[id].content == old.world()[id].content
    } by {}
    if old.healthy() {
        assert forall|id: Id| old.world().contains_key(id) implies new.world()[id]
            == old.world()[id] by {
            assert(old.world()[id].content is Some);
        }
        assert(new.world() =~= old.world());
        assert forall|id: Id| old.stored().contains_key(id) implies new.stored().contains_key(
            id,
        ) by {}
        assert forall|e: Entry| #[trigger] indexed(new.objects, new.key, e) implies {
            &&& new.index.contains_key(e.id)
            &&& e.loc.kind == new.index[e.id].kind
            &&& blob_at(new.objects, new.key, e.loc) == blob_at(
                new.objects,
                new.key,
                new.index[e.id],
            )
        } by {
            assert(indexed(old.objects, old.key, e));
            assert(old.index.contains_key(e.id));
            assert(!old.pending.contains_key(e.id));
            assert(old.world().contains_key(e.id));
            assert(old.world()[e.id].content is Some);
            assert(blob_at(old.objects, old.key, old.index[e.id]) is Some);
            assert(blob_at(old.objects, old.key, e.loc) is Some);
            assert(segment(old.objects, e.loc) is Some);
            assert(segment(old.objects, old.index[e.id]) is Some);
        }
    }
}

/// Listing the waiting blobs in a new index file, at segments that hold
/// them, moves them from the queue to the index and changes nothing else.
pub proof fn lemma_index_added(
    mid: RepoView,
    new: RepoView,
    f: Id,
    file: Seq<u8>,
    entries: Seq<Entry>,
)
    requires
        mid.backed(),
        mid.apart(),
        !mid.objects.contains_key((FileType::Index, f)),
        file_entries(mid.key, file) == Some(entries),
        new.objects == mid.objects.insert((FileType::Index, f), file),
        new.key == mid.key,
        new.pending == Map::<Id, Pending>::empty(),
        forall|i: int|
            0 <= i < entries.len() ==> {
                &&& mid.pending.contains_key((#[trigger] entries[i]).id)
                &&& mid.pending[entries[i].id].kind == entries[i].loc.kind
                &&& blob_at(mid.objects, mid.key, entries[i].loc) == Some(
                    mid.pending[entries[i].id].data,
                )
                &&& new.index.contains_key(entries[i].id)
                &&& new.index[entries[i].id] == entries[i].loc
            },
        forall|id: Id|
            mid.pending.contains_key(id) ==> exists|i: int|
                0 <= i < entries.len() && (#[trigger] entries[i]).id == id,
        forall|id: Id|
            new.index.contains_key(id) <==> mid.index.contains_key(id) || mid.pending.contains_key(
                id,
            ),
        forall|id: Id| mid.index.contains_key(id) ==> new.index[id] == mid.index[id],
    ensures
        new.backed(),
        mid.aware() ==> new.aware(),
        new.apart(),
        new.world() == mid.world(),
        new.roots() == mid.roots(),
        new.grown_from(mid),
        mid.healthy() ==> new.healthy(),
{
    lemma_indexed_insert_index(mid.objects, f, file, mid.key);
    lemma_roots_insert_other(mid.objects, FileType::Index, f, file, mid.key);
    assert forall|e: Entry| indexed(new.objects, new.key, e) <==> (indexed(
        mid.objects,
        mid.key,
        e,
    ) || entries.contains(e)) by {
        assert(indexed(new.objects, new.key, e) == indexed(
            mid.objects.insert((FileType::Index, f), file),
            mid.key,
            e,
        ));
    }
    assert forall|id: Id| #[trigger] new.index.contains_key(id) implies indexed(
        new.objects,
        new.key,
        new.entry(id),
    ) by {
        if mid.index.contains_key(id) {
            assert(indexed(mid.objects, mid.key, mid.entry(id)));
            assert(new.entry(id) == mid.entry(id));
        } else {
            assert(mid.pending.contains_key(id));
            let i = choose|i: int| 0 <= i < entries.len() && (#[trigger] entries[i]).id == id;
            assert(entries[i] == new.entry(id));
            assert(entries.contains(entries[i]));
        }
    }
    if mid.aware() {
        assert forall|e: Entry| #[trigger]
            indexed(new.objects, new.key, e) implies new.index.contains_key(e.id) by {
            if !indexed(mid.objects, mid.key, e) {
                let i = choose|i: int| 0 <= i < entries.len() && entries[i] == e;
            }
        }
    }
    assert forall|id: Id| new.world().contains_key(id) implies new.world()[id]
        == mid.world()[id] by {
        if mid.pending.contains_key(id) {
            let i = choose|i: int| 0 <= i < entries.len() && (#[trigger] entries[i]).id == id;
            lemma_blob_at_insert(mid.objects, FileType::Index, f, file, mid.key, entries[i].loc);
        } else {
            lemma_blob_at_insert(mid.objects, FileType::Index, f, file, mid.key, mid.index[id]);
        }
    }
    assert(new.world() =~= mid.world());
    if mid.healthy() {
        assert forall|r: Id| #[trigger] new.roots().contains(r) implies new.stored().contains_key(
            r,
        ) by {
            assert(mid.stored().contains_key(r));
        }
        assert forall|e: Entry| #[trigger] indexed(new.objects, new.key, e) implies {
            &&& new.index.contains_key(e.id)
            &&& e.loc.kind == new.index[e.id].kind
            &&& blob_at(new.objects, new.key, e.loc) == blob_at(
                new.objects,
                new.key,
                new.index[e.id],
            )
        } by {
            lemma_blob_at_insert(mid.objects, FileType::Index, f, file, mid.key, e.loc);
            lemma_blob_at_insert(
                mid.objects,
                FileType::Index,
                f,
                file,
                mid.key,
                new.index[e.id],
            );
            if !indexed(mid.objects, mid.key, e) {
                let i = choose|i: int| 0 <= i < entries.len() && entries[i] == e;
            }
        }
    }
}

/// Queueing a blob under its own address adds it to the world and changes
/// nothing else. A tree may be queued where the repository has every blob
/// that it names.
pub proof fn lemma_blob_added(old: RepoView, new: RepoView, id: Id, kind: BlobKind, data: Seq<u8>)
    requires
        new == (RepoView { pending: old.pending.insert(id, Pending { kind, data }), ..old }),
        !old.world().contains_key(id),
        digest(data) == id@,
        kind == BlobKind::Tree ==> parse_tree(data) is Some && forall|r: Id|
            tree_refs(data).unwrap().contains(r) ==> old.world().contains_key(r) || r == id,
        old.apart(),
    ensures
        new.apart(),
        new.world() == old.world().insert(id, Blob { kind, content: Some(data) }),
        new.stored() == old.stored(),
        new.carries(old),
        new.grown_from(old),
        new.roots() == old.roots(),
        old.backed() ==> new.backed(),
        old.aware() ==> new.aware(),
        old.healthy() ==> new.healthy(),
{
    let added = Blob { kind, content: Some(data) };
    assert(new.world() =~= old.world().insert(id, added));
    assert(new.stored() =~= old.stored());
    if old.healthy() {
        assert forall|a: Id, r: Id| #[trigger] refs(new.world(), a).contains(r) implies new.world().contains_key(
            r,
        ) by {
            if a != id {
                assert(refs(old.world(), a).contains(r));
            }
        }
    }
}

/// Writing an object that is neither a pack nor an index file changes no
/// blob.
pub proof fn lemma_other_added(old: RepoView, new: RepoView, file_type: FileType, id: Id, data: Seq<u8>)
    requires
        file_type != FileType::Pack,
        file_type != FileType::Index,
        new == (RepoView { objects: old.objects.insert((file_type, id), data), ..old }),
    ensures
        new.world() == old.world(),
        new.stored() == old.stored(),
        new.carries(old),
        old.backed() ==> new.backed(),
        old.aware() ==> new.aware(),
        old.coherent() ==> new.coherent(),
        new.apart() == old.apart(),
        file_type != FileType::Snapshot ==> new.roots() == old.roots(),
        file_type != FileType::Snapshot && old.healthy() ==> new.healthy(),
{
    lemma_indexed_insert_other(old.objects, file_type, id, data, old.key);
    assert forall|e: Entry| indexed(new.objects, new.key, e) == indexed(
        old.objects,
        old.key,
        e,
    ) by {}
    assert forall|loc: Location| #[trigger] blob_at(new.objects, new.key, loc) == blob_at(
        old.objects,
        old.key,
        loc,
    ) by {
        lemma_blob_at_insert(old.objects, file_type, id, data, old.key, loc);
    }
    assert(new.stored() =~= old.stored());
    assert(new.world() =~= old.world());
    if old.backed() {
        assert forall|i: Id| #[trigger] new.index.contains_key(i) implies indexed(
            new.objects,
            new.key,
            new.entry(i),
        ) by {
            assert(indexed(old.objects, old.key, old.entry(i)));
        }
    }
    if old.aware() {
        assert forall|e: Entry| #[trigger]
            indexed(new.objects, new.key, e) implies new.index.contains_key(e.id) by {
            assert(indexed(old.objects, old.key, e));
        }
    }
    if old.coherent() {
        assert forall|e: Entry| #[trigger] indexed(new.objects, new.key, e) implies {
            &&& new.index.contains_key(e.id)
            &&& e.loc.kind == new.index[e.id].kind
            &&& blob_at(new.objects, new.key, e.loc) == blob_at(
                new.objects,
                new.key,
                new.index[e.id],
            )
        } by {
            assert(indexed(old.objects, old.key, e));
        }
    }
    if file_type != FileType::Snapshot {
        lemma_roots_insert_other(old.objects, file_type, id, data, old.key);
    }
}

/// Removing an object that is neither a pack nor an index file changes no
/// blob.
pub proof fn lemma_other_removed(old: RepoView, new: RepoView, file_type: FileType, id: Id)
    requires
        file_type != FileType::Pack,
        file_type != FileType::Index,
        new == (RepoView { objects: old.objects.remove((file_type, id)), ..old }),
    ensures
        new.world() == old.world(),
        new.stored() == old.stored(),
        new.carries(old),
        old.backed() ==> new.backed(),
        old.aware() ==> new.aware(),
        old.coherent() ==> new.coherent(),
        new.apart() == old.apart(),
        forall|t: Id| new.roots().contains(t) ==> old.roots().contains(t),
        file_type != FileType::Snapshot ==> new.roots() == old.roots(),
        old.healthy() ==> new.healthy(),
{
    lemma_indexed_remove_other(old.objects, file_type, id, old.key);
    assert forall|e: Entry| indexed(new.objects, new.key, e) == indexed(
        old.objects,
        old.key,
        e,
    ) by {}
    assert forall|loc: Location| #[trigger] blob_at(new.objects, new.key, loc) == blob_at(
        old.objects,
        old.key,
        loc,
    ) by {
        lemma_blob_at_remove(old.objects, file_type, id, old.key, loc);
    }
    assert(new.stored() =~= old.stored());
    assert(new.world() =~= old.world());
    if old.backed() {
        assert forall|i: Id| #[trigger] new.index.contains_key(i) implies indexed(
            new.objects,
            new.key,
            new.entry(i),
        ) by {
            assert(indexed(old.objects, old.key, old.entry(i)));
        }
    }
    if old.aware() {
        assert forall|e: Entry| #[trigger]
            indexed(new.objects, new.key, e) implies new.index.contains_key(e.id) by {
            assert(indexed(old.objects, old.key, e));
        }
    }
    if old.coherent() {
        assert forall|e: Entry| #[trigger] indexed(new.objects, new.key, e) implies {
            &&& new.index.contains_key(e.id)
            &&& e.loc.kind == new.index[e.id].kind
            &&& blob_at(new.objects, new.key, e.loc) == blob_at(
                new.objects,
                new.key,
                new.index[e.id],
            )
        } by {
            assert(indexed(old.objects, old.key, e));
        }
    }
    if file_type != FileType::Snapshot {
        lemma_roots_remove_other(old.objects, file_type, id, old.key);
    } else {
        lemma_roots_remove_snapshot(old.objects, id, old.key);
    }
    if old.healthy() {
        assert forall|r: Id| #[trigger] new.roots().contains(r) implies new.stored().contains_key(
            r,
        ) by {
            assert(old.roots().contains(r));
        }
    }
}

/// Re-opening: two repositories over the same objects and key whose
/// indexes are synced have the same stored blobs, where the index files
/// agree with the index of one of them.
pub proof fn law_reopen(a: RepoView, b: RepoView)
    requires
        a.objects == b.objects,
        a.key == b.key,
        a.synced(),
        a.coherent(),
        b.synced(),
    ensures
        b.coherent(),
        b.stored() == a.stored(),
{
    assert forall|e: Entry| #[trigger] indexed(b.objects, b.key, e) implies {
        &&& b.index.contains_key(e.id)
        &&& e.loc.kind == b.index[e.id].kind
        &&& blob_at(b.objects, b.key, e.loc) == blob_at(b.objects, b.key, b.index[e.id])
    } by {
        assert(indexed(a.objects, a.key, b.entry(e.id)));
    }
    assert forall|id: Id| a.index.contains_key(id) == b.index.contains_key(id) by {
        if a.index.contains_key(id) {
            assert(indexed(b.objects, b.key, a.entry(id)));
        }
        if b.index.contains_key(id) {
            assert(indexed(a.objects, a.key, b.entry(id)));
        }
    }
    assert forall|id: Id| a.index.contains_key(id) implies a.stored()[id] == b.stored()[id] by {
        assert(indexed(a.objects, a.key, b.entry(id)));
    }
    assert(b.stored() =~= a.stored());
}

} // verus!
