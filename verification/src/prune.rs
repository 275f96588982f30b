//! Pruning: removing what no snapshot reaches.
//!
//! A prune walks what the snapshots reach, decides for each pack whether it
//! is kept, repacked or deleted, copies the reachable blobs of the packs
//! that are repacked into new packs, commits an index of the reachable
//! blobs, and only then removes the old index files and the packs that
//! are no longer needed. Whenever it stops, the store is clean.

use crate::backend::{Backend, Objects};
use crate::blob::{blob_at, BlobKind, Entry, Location, opened_blob, segment};
use crate::clean::{
    held, lemma_packs_added, lemma_store_step, packs_added, store_clean, store_world,
};
use crate::crypto::{append, encrypt, MAX_MESSAGE};
use crate::error::{Error, ErrorKind, FileType};
use crate::id::Id;
use crate::idmap::IdMap;
use crate::reach::{lemma_push_contains, Mark, mark_of};
use crate::repo::{install, MAX_QUEUED, names, place, Repository};
use crate::store::{
    bad_index, file_entries, indexed, lemma_entries_len, lemma_entries_round_trip,
    lemma_indexed_insert_index, lemma_roots_insert_other, lists, Pending, RepoView, roots,
    roots_at, snapshot_in, write_entries,
};
use crate::world::{closed, complete, reachable, rooted, sound};
use vstd::prelude::*;

verus! {

/// What a prune does with a pack.
#[derive(Clone, Copy, Debug, PartialEq, Eq, Structural)]
pub enum PackAction {
    /// The pack stays as it is.
    Keep,
    /// The reachable blobs of the pack are copied into a new pack, and the
    /// pack is removed.
    Repack,
    /// The pack holds no reachable blob and is removed.
    Delete,
}

/// The phases of a prune, in order.
#[derive(Clone, Copy, Debug, PartialEq, Eq, Structural)]
pub enum Phase {
    Scanning,
    ComputingReachability,
    Planning,
    Repacking,
    Deleting,
    Done,
}

/// What a pack with the given use gets: deleted where no reachable blob
/// lies in it, repacked where less of its bytes than `threshold` percent
/// belong to reachable blobs, kept otherwise.
pub open spec fn spec_classify(live_blobs: u64, live_bytes: u64, size: u64, threshold: u8) -> PackAction {
    if live_blobs == 0 {
        PackAction::Delete
    } else if live_bytes * 100 < threshold * size {
        PackAction::Repack
    } else {
        PackAction::Keep
    }
}

/// Decides what to do with a pack.
pub fn classify(live_blobs: u64, live_bytes: u64, size: u64, threshold: u8) -> (r: PackAction)
    ensures
        r == spec_classify(live_blobs, live_bytes, size, threshold),
{
    assert((threshold as u128) * (size as u128) <= 255 * 0xffff_ffff_ffff_ffff) by (nonlinear_arith)
        requires
            threshold <= 255,
            size <= 0xffff_ffff_ffff_ffff,
    ;
    if live_blobs == 0 {
        PackAction::Delete
    } else if (live_bytes as u128) * 100 < (threshold as u128) * (size as u128) {
        PackAction::Repack
    } else {
        PackAction::Keep
    }
}

/// How much of a pack is reachable.
#[derive(Clone, Copy, Debug, PartialEq, Eq, Structural)]
pub struct PackUse {
    /// Reachable blobs that lie in the pack. The count stops at `u64::MAX`.
    pub blobs: u64,
    /// The bytes of their segments. The sum stops at `u64::MAX`.
    pub bytes: u64,
}

/// A sum that stops at `u64::MAX`.
pub open spec fn capped(a: u64, b: u64) -> u64 {
    if a + b > u64::MAX {
        u64::MAX
    } else {
        (a + b) as u64
    }
}

fn add_capped(a: u64, b: u64) -> (r: u64)
    ensures
        r == capped(a, b),
{
    if a > u64::MAX - b {
        u64::MAX
    } else {
        a + b
    }
}

/// The use of `pack` by the blobs of `ids` that are marked as held.
pub open spec fn usage(ids: Seq<Id>, index: Map<Id, Location>, marks: Map<Id, Mark>, pack: Id) -> PackUse
    decreases ids.len(),
{
    if ids.len() == 0 {
        PackUse { blobs: 0, bytes: 0 }
    } else {
        let rest = usage(ids.drop_last(), index, marks, pack);
        let id = ids.last();
        if marks.contains_key(id) && index.contains_key(id) && index[id].pack == pack {
            PackUse { blobs: capped(rest.blobs, 1), bytes: capped(rest.bytes, index[id].length) }
        } else {
            rest
        }
    }
}

/// What a prune did.
#[derive(Clone, Debug, PartialEq, Eq)]
pub struct PruneSummary {
    /// The decision for every pack that was there when the prune began.
    pub packs: Vec<PackPlan>,
    /// Blobs that the index lists after the prune.
    pub blobs: usize,
}

/// How many of the decisions are `action`.
pub open spec fn spec_count(packs: Seq<PackPlan>, action: PackAction) -> nat
    decreases packs.len(),
{
    if packs.len() == 0 {
        0
    } else {
        spec_count(packs.drop_last(), action) + (if packs.last().action == action {
            1nat
        } else {
            0nat
        })
    }
}

impl PruneSummary {
    /// How many packs got the decision `action`.
    pub fn count(&self, action: PackAction) -> (n: usize)
        ensures
            n == spec_count(self.packs@, action),
    {
        let mut n: usize = 0;
        let mut i: usize = 0;
        assert(self.packs@.take(0) =~= Seq::<PackPlan>::empty());
        while i < self.packs.len()
            invariant
                i <= self.packs@.len(),
                n <= i,
                n == spec_count(self.packs@.take(i as int), action),
            decreases self.packs@.len() - i,
        {
            proof {
                assert(self.packs@.take(i + 1).drop_last() =~= self.packs@.take(i as int));
                assert(self.packs@.take(i + 1).last() == self.packs@[i as int]);
            }
            if self.packs[i].action == action {
                n += 1;
            }
            i += 1;
        }
        assert(self.packs@.take(self.packs@.len() as int) =~= self.packs@);
        n
    }
}

/// The decision for one pack.
#[derive(Clone, Copy, Debug, PartialEq, Eq)]
pub struct PackPlan {
    pub pack: Id,
    /// Bytes of the pack.
    pub size: u64,
    pub live: PackUse,
    pub action: PackAction,
}

/// What a prune is going to do.
pub struct Plan {
    /// Everything that the snapshots reach.
    pub reach: IdMap<Mark>,
    /// The decision for every pack of the backend.
    pub packs: Vec<PackPlan>,
    /// The decisions by pack.
    pub actions: IdMap<PackAction>,
    /// The index files of the backend.
    pub files: Vec<Id>,
}

impl Plan {
    /// Whether the plan is the plan of the repository `v` at `threshold`.
    pub open spec fn fits(&self, v: RepoView, threshold: u8, keys: Seq<Id>) -> bool {
        &&& self.reach.wf()
        &&& self.actions.wf()
        &&& forall|id: Id| #[trigger]
            self.reach@.contains_key(id) <==> reachable(v.world(), v.roots(), id)
        &&& forall|id: Id| #[trigger]
            self.reach@.contains_key(id) ==> mark_of(v.world(), id) == Mark::Held
        &&& forall|sid: Id| #[trigger]
            v.objects.contains_key((FileType::Snapshot, sid)) ==> snapshot_in(
                v.objects,
                v.key,
                sid,
            ) is Some
        &&& forall|p: Id|
            (exists|i: int| 0 <= i < self.packs@.len() && (#[trigger] self.packs@[i]).pack == p)
                <==> v.objects.contains_key((FileType::Pack, p))
        &&& forall|i: int|
            0 <= i < self.packs@.len() ==> {
                &&& (#[trigger] self.packs@[i]).size == v.objects[(
                    FileType::Pack,
                    self.packs@[i].pack,
                )].len()
                &&& self.packs@[i].live == usage(keys, v.index, self.reach@, self.packs@[i].pack)
                &&& self.packs@[i].action == spec_classify(
                    self.packs@[i].live.blobs,
                    self.packs@[i].live.bytes,
                    self.packs@[i].size,
                    threshold,
                )
                &&& self.actions@.contains_key(self.packs@[i].pack)
                &&& self.actions@[self.packs@[i].pack] == self.packs@[i].action
            }
        &&& forall|p: Id| #[trigger]
            self.actions@.contains_key(p) ==> v.objects.contains_key((FileType::Pack, p))
        &&& self.files@.no_duplicates()
        &&& forall|f: Id| #[trigger]
            self.files@.contains(f) <==> v.objects.contains_key((FileType::Index, f))
    }
}

/// Whether `reach` is a walk of the repository `v` that found every
/// snapshot readable and everything that the snapshots reach held.
pub open spec fn walked(v: RepoView, reach: IdMap<Mark>) -> bool {
    &&& reach.wf()
    &&& forall|id: Id| #[trigger]
        reach@.contains_key(id) <==> reachable(v.world(), v.roots(), id)
    &&& forall|id: Id| #[trigger]
        reach@.contains_key(id) ==> mark_of(v.world(), id) == Mark::Held
    &&& forall|sid: Id| #[trigger]
        v.objects.contains_key((FileType::Snapshot, sid)) ==> snapshot_in(v.objects, v.key, sid)
            is Some
}

/// Whether the snapshots reach an address under which there is no blob.
pub open spec fn missing_in(v: RepoView) -> bool {
    exists|id: Id| #[trigger] reachable(v.world(), v.roots(), id) && !v.world().contains_key(id)
}

/// Whether a snapshot cannot be read, or a tree that the snapshots reach.
pub open spec fn unreadable_in(v: RepoView) -> bool {
    ||| exists|sid: Id| #[trigger]
        v.objects.contains_key((FileType::Snapshot, sid)) && snapshot_in(v.objects, v.key, sid)
            is None
    ||| exists|id: Id| #[trigger]
        reachable(v.world(), v.roots(), id) && mark_of(v.world(), id) == Mark::Unreadable
}

/// Whether the plan decides on no pack for a blob that its walk reached.
pub open spec fn undecided(v: RepoView, plan: Plan) -> bool {
    exists|id: Id| #[trigger]
        plan.reach@.contains_key(id) && !plan.actions@.contains_key(v.index[id].pack)
}

/// Whether a blob that the walk of the plan reached lies beyond the end
/// of its pack.
pub open spec fn misplaced(v: RepoView, plan: Plan) -> bool {
    exists|id: Id| #[trigger]
        plan.reach@.contains_key(id) && segment(v.objects, v.index[id]) is None
}

/// Whether a blob that the snapshots reach has a place in the index at
/// which no segment lies: its pack is gone, or ends before it.
pub open spec fn unplaced_in(v: RepoView) -> bool {
    exists|id: Id| #[trigger]
        reachable(v.world(), v.roots(), id) && v.index.contains_key(id) && segment(
            v.objects,
            v.index[id],
        ) is None
}

/// Whether `v` is the repository `old` with its index read anew from the
/// index files.
pub open spec fn reread(old: RepoView, v: RepoView) -> bool {
    &&& v.objects == old.objects
    &&& v.key == old.key
    &&& v.pending == old.pending
    &&& v.synced()
}

/// Whether the index of `new` lists exactly what the snapshots reach in
/// `v`, each blob as it is in `v`.
pub open spec fn kept_of(v: RepoView, new: RepoView) -> bool {
    &&& forall|id: Id| new.index.contains_key(id) <==> reachable(v.world(), v.roots(), id)
    &&& forall|id: Id| #[trigger] new.index.contains_key(id) ==> new.world()[id] == v.world()[id]
}

/// The addresses that the snapshots reach.
pub open spec fn reach_set(v: RepoView) -> Set<Id> {
    Set::new(|id: Id| reachable(v.world(), v.roots(), id))
}

/// Whether the plan can be carried out on the repository `v`: its walk is
/// a walk of `v`, it decides on the packs that are there, and it lists
/// the index files of `v`.
pub open spec fn ready(v: RepoView, plan: Plan) -> bool {
    &&& plan.actions.wf()
    &&& walked(v, plan.reach)
    &&& forall|p: Id| #[trigger]
        plan.actions@.contains_key(p) <==> v.objects.contains_key((FileType::Pack, p))
    &&& forall|i: int|
        0 <= i < plan.packs@.len() ==> plan.actions@.contains_key(
            (#[trigger] plan.packs@[i]).pack,
        ) && plan.actions@[plan.packs@[i].pack] == plan.packs@[i].action
    &&& forall|f: Id| #[trigger]
        plan.files@.contains(f) <==> v.objects.contains_key((FileType::Index, f))
}

/// Counts, pack by pack, the held blobs of the index.
pub fn tally(index: &IdMap<Location>, marks: &IdMap<Mark>) -> (uses: IdMap<PackUse>)
    requires
        index.wf(),
        marks.wf(),
    ensures
        uses.wf(),
        forall|p: Id| #[trigger]
            uses@.contains_key(p) ==> uses@[p] == usage(index.spec_keys(), index@, marks@, p),
        forall|p: Id|
            !uses@.contains_key(p) ==> #[trigger] usage(index.spec_keys(), index@, marks@, p) == (
            PackUse { blobs: 0, bytes: 0 }),
{
    let keys = index.keys();
    let mut uses: IdMap<PackUse> = IdMap::new();
    let mut i: usize = 0;
    assert(keys@.take(0) =~= Seq::<Id>::empty());
    while i < keys.len()
        invariant
            i <= keys@.len(),
            index.wf(),
            marks.wf(),
            uses.wf(),
            keys@ == index.spec_keys(),
            forall|k: Id| #[trigger] keys@.contains(k) <==> index@.contains_key(k),
            forall|p: Id| #[trigger]
                uses@.contains_key(p) ==> uses@[p] == usage(
                    keys@.take(i as int),
                    index@,
                    marks@,
                    p,
                ),
            forall|p: Id|
                !uses@.contains_key(p) ==> #[trigger] usage(
                    keys@.take(i as int),
                    index@,
                    marks@,
                    p,
                ) == (PackUse { blobs: 0, bytes: 0 }),
        decreases keys@.len() - i,
    {
        let id = keys[i];
        assert(keys@.contains(id));
        let ghost done = keys@.take(i as int);
        let ghost next = keys@.take(i + 1);
        proof {
            assert(next.drop_last() =~= done);
            assert(next.last() == id);
        }
        let loc = match index.get(&id) {
            Some(loc) => *loc,
            None => Location { pack: id, offset: 0, length: 0, kind: BlobKind::Data },
        };
        let ghost before = uses@;
        if marks.contains(&id) {
            let was = match uses.get(&loc.pack) {
                Some(u) => *u,
                None => PackUse { blobs: 0, bytes: 0 },
            };
            assert(was == usage(done, index@, marks@, loc.pack));
            uses.insert(
                loc.pack,
                PackUse { blobs: add_capped(was.blobs, 1), bytes: add_capped(was.bytes, loc.length) },
            );
        }
        proof {
            assert forall|p: Id| #[trigger]
                uses@.contains_key(p) implies uses@[p] == usage(next, index@, marks@, p) by {
                if marks@.contains_key(id) && loc.pack == p {
                } else {
                    assert(before.contains_key(p));
                    assert(usage(next, index@, marks@, p) == usage(done, index@, marks@, p));
                }
            }
            assert forall|p: Id| !uses@.contains_key(p) implies #[trigger] usage(
                next,
                index@,
                marks@,
                p,
            ) == (PackUse { blobs: 0, bytes: 0 }) by {
                assert(!before.contains_key(p));
                assert(usage(next, index@, marks@, p) == usage(done, index@, marks@, p));
            }
        }
        i += 1;
    }
    assert(keys@.take(keys@.len() as int) =~= keys@);
    uses
}

/// Every place of `live` holds, in the objects of `v`, what the index of
/// `base` held for the address, in a pack that is there and that is
/// either new or kept by the plan.
pub open spec fn lives_ok(
    v: RepoView,
    base: RepoView,
    actions: Map<Id, PackAction>,
    live: Map<Id, Location>,
) -> bool {
    forall|id: Id| #[trigger]
        live.contains_key(id) ==> {
            &&& base.index.contains_key(id)
            &&& live[id].kind == base.index[id].kind
            &&& blob_at(v.objects, v.key, live[id]) == blob_at(
                base.objects,
                base.key,
                base.index[id],
            )
            &&& v.objects.contains_key((FileType::Pack, live[id].pack))
            &&& segment(v.objects, live[id]) is Some
            &&& base.objects.contains_key((FileType::Pack, base.index[id].pack))
            &&& base.objects.contains_key((FileType::Pack, live[id].pack))
                ==> actions.contains_key(live[id].pack) && actions[live[id].pack]
                == PackAction::Keep
        }
}

/// Every place of `live` holds what the index of `v` holds for the
/// address.
pub open spec fn same_blobs(v: RepoView, live: Map<Id, Location>) -> bool {
    forall|id: Id| #[trigger]
        live.contains_key(id) ==> {
            &&& v.index.contains_key(id)
            &&& live[id].kind == v.index[id].kind
            &&& blob_at(v.objects, v.key, live[id]) == blob_at(v.objects, v.key, v.index[id])
        }
}

/// The index file `n` lists exactly the entries of the index in memory.
pub open spec fn mirrors(v: RepoView, n: Id) -> bool {
    forall|e: Entry| #[trigger]
        lists(v.objects, v.key, n, e) <==> v.index.contains_key(e.id) && v.index[e.id] == e.loc
}

/// The index files list exactly the entries of the index in memory.
pub open spec fn exact(v: RepoView) -> bool {
    forall|e: Entry| #[trigger]
        indexed(v.objects, v.key, e) <==> v.index.contains_key(e.id) && v.index[e.id] == e.loc
}

/// `after` has no object that `before` does not have, has every object of
/// `before` that is no index file, and has the index file `keep`.
pub open spec fn indexes_removed(before: Objects, after: Objects, keep: Id) -> bool {
    &&& forall|k: (FileType, Id)| #[trigger]
        after.contains_key(k) ==> before.contains_key(k) && after[k] == before[k]
    &&& forall|k: (FileType, Id)| #[trigger]
        before.contains_key(k) && !after.contains_key(k) ==> k.0 == FileType::Index && k.1
            != keep
}

/// `after` has no object that `before` does not have, and has every
/// object of `before` that is no pack.
pub open spec fn packs_removed(before: Objects, after: Objects) -> bool {
    &&& forall|k: (FileType, Id)| #[trigger]
        after.contains_key(k) ==> before.contains_key(k) && after[k] == before[k]
    &&& forall|k: (FileType, Id)| #[trigger]
        before.contains_key(k) && !after.contains_key(k) ==> k.0 == FileType::Pack
}

/// Whether every place of the index lies inside a pack that is there.
#[verifier::opaque]
pub open spec fn placed(objects: Objects, index: Map<Id, Location>) -> bool {
    forall|id: Id| #[trigger] index.contains_key(id) ==> segment(objects, index[id]) is Some
}

/// Where objects are added, every place still lies inside its pack.
pub proof fn lemma_placed_more(a: Objects, b: Objects, index: Map<Id, Location>)
    requires
        placed(a, index),
        forall|k: (FileType, Id)| #[trigger] a.contains_key(k) ==> b.contains_key(k) && b[k] == a[k],
    ensures
        placed(b, index),
{
    reveal(placed);
    assert forall|id: Id| #[trigger] index.contains_key(id) implies segment(b, index[id])
        is Some by {
        assert(segment(a, index[id]) is Some);
        assert(a.contains_key((FileType::Pack, index[id].pack)));
    }
}

/// Where objects are removed that are index files or packs in which no
/// place of the index lies, every place still lies inside its pack.
pub proof fn lemma_placed_less(a: Objects, b: Objects, index: Map<Id, Location>, gone: Seq<Id>)
    requires
        placed(a, index),
        forall|k: (FileType, Id)| #[trigger] b.contains_key(k) ==> a.contains_key(k) && b[k] == a[k],
        forall|k: (FileType, Id)| #[trigger]
            a.contains_key(k) && !b.contains_key(k) ==> k.0 == FileType::Index || gone.contains(
                k.1,
            ),
        forall|id: Id| #[trigger] index.contains_key(id) ==> !gone.contains(index[id].pack),
    ensures
        placed(b, index),
{
    reveal(placed);
    assert forall|id: Id| #[trigger] index.contains_key(id) implies segment(b, index[id])
        is Some by {
        assert(segment(a, index[id]) is Some);
        let k = (FileType::Pack, index[id].pack);
        assert(a.contains_key(k));
        if !b.contains_key(k) {
            assert(gone.contains(k.1));
        }
    }
}

/// Whether the two stores hold the same beside packs and index files:
/// the same configuration, key records and snapshots, each unchanged.
#[verifier::opaque]
pub open spec fn others_same(a: Objects, b: Objects) -> bool {
    forall|k: (FileType, Id)|
        k.0 != FileType::Pack && k.0 != FileType::Index ==> (#[trigger] b.contains_key(k)
            <==> a.contains_key(k)) && (a.contains_key(k) ==> b[k] == a[k])
}

/// What it means that two stores hold the same beside packs and index
/// files: an object of another class is in the one exactly where it is
/// in the other, with the same bytes.
pub proof fn lemma_others_kept(a: Objects, b: Objects)
    requires
        others_same(a, b),
    ensures
        forall|k: (FileType, Id)|
            k.0 != FileType::Pack && k.0 != FileType::Index ==> (#[trigger] b.contains_key(k)
                <==> a.contains_key(k)) && (a.contains_key(k) ==> b[k] == a[k]),
{
    reveal(others_same);
}

/// A store holds beside packs and index files what it holds.
pub proof fn lemma_others_same(a: Objects)
    ensures
        others_same(a, a),
{
    reveal(others_same);
}

/// Where packs are added, nothing else changes and every index file can
/// be read that could be read.
pub proof fn lemma_step_added(start: Objects, a: Objects, b: Objects, key: Seq<u8>)
    requires
        others_same(start, a),
        packs_added(a, b),
    ensures
        others_same(start, b),
        !bad_index(a, key) ==> !bad_index(b, key),
{
    reveal(others_same);
    assert forall|k: (FileType, Id)|
        k.0 != FileType::Pack && k.0 != FileType::Index implies (#[trigger] b.contains_key(k)
        <==> start.contains_key(k)) && (start.contains_key(k) ==> b[k] == start[k]) by {
        assert(a.contains_key(k) <==> start.contains_key(k));
    }
    if bad_index(b, key) {
        let f = choose|f: Id|
            b.contains_key((FileType::Index, f)) && #[trigger] file_entries(
                key,
                b[(FileType::Index, f)],
            ) is None;
        assert(a.contains_key((FileType::Index, f)));
        assert(file_entries(key, a[(FileType::Index, f)]) is None);
    }
}

/// Where an index file is added that can be read, nothing else changes
/// and every index file can be read where every one could before.
pub proof fn lemma_step_index(start: Objects, a: Objects, b: Objects, n: Id, key: Seq<u8>)
    requires
        others_same(start, a),
        b == a.insert((FileType::Index, n), b[(FileType::Index, n)]),
        file_entries(key, b[(FileType::Index, n)]) is Some,
    ensures
        others_same(start, b),
        !bad_index(a, key) ==> !bad_index(b, key),
{
    reveal(others_same);
    assert forall|k: (FileType, Id)|
        k.0 != FileType::Pack && k.0 != FileType::Index implies (#[trigger] b.contains_key(k)
        <==> start.contains_key(k)) && (start.contains_key(k) ==> b[k] == start[k]) by {
        assert(a.contains_key(k) <==> start.contains_key(k));
    }
    if bad_index(b, key) {
        let f = choose|f: Id|
            b.contains_key((FileType::Index, f)) && #[trigger] file_entries(
                key,
                b[(FileType::Index, f)],
            ) is None;
        assert(f != n);
        assert(a.contains_key((FileType::Index, f)));
        assert(file_entries(key, a[(FileType::Index, f)]) is None);
    }
}

/// Where objects are removed that are packs or index files, nothing else
/// changes and every index file that is left can be read where every one
/// could before.
pub proof fn lemma_step_removed(start: Objects, a: Objects, b: Objects, key: Seq<u8>)
    requires
        others_same(start, a),
        forall|k: (FileType, Id)| #[trigger]
            b.contains_key(k) ==> a.contains_key(k) && b[k] == a[k],
        forall|k: (FileType, Id)| #[trigger]
            a.contains_key(k) && !b.contains_key(k) ==> k.0 == FileType::Index || k.0
                == FileType::Pack,
    ensures
        others_same(start, b),
        !bad_index(a, key) ==> !bad_index(b, key),
{
    reveal(others_same);
    assert forall|k: (FileType, Id)|
        k.0 != FileType::Pack && k.0 != FileType::Index implies (#[trigger] b.contains_key(k)
        <==> start.contains_key(k)) && (start.contains_key(k) ==> b[k] == start[k]) by {
        assert(a.contains_key(k) <==> start.contains_key(k));
    }
    if bad_index(b, key) {
        let f = choose|f: Id|
            b.contains_key((FileType::Index, f)) && #[trigger] file_entries(
                key,
                b[(FileType::Index, f)],
            ) is None;
        assert(a.contains_key((FileType::Index, f)));
        assert(file_entries(key, a[(FileType::Index, f)]) is None);
    }
}

/// Committing an index of what is reachable: the repository holds what is
/// reachable, unchanged, and nothing else; no snapshot misses a blob.
#[verifier::spinoff_prover]
pub proof fn lemma_committed(old: RepoView, new: RepoView, n: Id, bytes: Seq<u8>)
    requires
        old.backed(),
        old.pending == Map::<Id, Pending>::empty(),
        new.pending == old.pending,
        new.key == old.key,
        !old.objects.contains_key((FileType::Index, n)),
        new.objects == old.objects.insert((FileType::Index, n), bytes),
        same_blobs(old, new.index),
        forall|id: Id| new.index.contains_key(id) <==> reachable(old.world(), old.roots(), id),
        file_entries(old.key, bytes) is Some,
        forall|e: Entry|
            file_entries(old.key, bytes).unwrap().contains(e) <==> new.index.contains_key(e.id)
                && new.index[e.id] == e.loc,
    ensures
        new.backed(),
        new.apart(),
        mirrors(new, n),
        new.roots() == old.roots(),
        forall|id: Id| #[trigger]
            new.index.contains_key(id) ==> new.world()[id] == old.world()[id],
        complete(new.world(), new.roots()),
        closed(new.world()),
        rooted(new.stored(), new.roots()),
        sound(old.world()) ==> sound(new.world()),
        forall|id: Id|
            reachable(new.world(), new.roots(), id) <==> reachable(old.world(), old.roots(), id),
        store_clean(old.objects, old.key) ==> store_clean(new.objects, new.key),
{
    lemma_indexed_insert_index(old.objects, n, bytes, old.key);
    lemma_roots_insert_other(old.objects, FileType::Index, n, bytes, old.key);
    assert forall|loc: Location| #[trigger] blob_at(new.objects, new.key, loc) == blob_at(
        old.objects,
        old.key,
        loc,
    ) by {
        crate::store::lemma_blob_at_insert(old.objects, FileType::Index, n, bytes, old.key, loc);
    }
    assert forall|e: Entry| #[trigger] lists(new.objects, new.key, n, e) <==> new.index.contains_key(
        e.id,
    ) && new.index[e.id] == e.loc by {}
    assert forall|id: Id| #[trigger] new.index.contains_key(id) implies indexed(
        new.objects,
        new.key,
        new.entry(id),
    ) by {
        assert(lists(new.objects, new.key, n, new.entry(id)));
    }
    assert(old.world() =~= old.stored());
    assert(new.world() =~= new.stored());
    assert forall|id: Id| #[trigger] new.index.contains_key(id) implies new.world()[id]
        == old.world()[id] by {}
    assert forall|id: Id| #[trigger]
        new.world().contains_key(id) implies old.world().contains_key(id) && new.world()[id]
        == old.world()[id] by {}
    assert forall|id: Id| #[trigger]
        reachable(old.world(), old.roots(), id) implies new.world().contains_key(id) by {}
    crate::clean::lemma_part_complete(old.world(), new.world(), old.roots());
    assert forall|a: Id, b: Id| #[trigger]
        crate::world::refs(new.world(), a).contains(b) implies new.world().contains_key(b) by {
        assert(new.world().contains_key(a));
        assert(new.world()[a] == old.world()[a]);
        assert(crate::world::refs(old.world(), a).contains(b));
        assert(reachable(old.world(), old.roots(), a));
        crate::world::lemma_step_reachable(old.world(), old.roots(), a, b);
    }
    assert forall|r: Id| #[trigger] new.roots().contains(r) implies new.stored().contains_key(
        r,
    ) by {
        crate::world::lemma_root_reachable(old.world(), old.roots(), r);
    }
    if store_clean(old.objects, old.key) {
        assert forall|e: Entry| #[trigger]
            indexed(new.objects, new.key, e) implies exists|o: Entry| #[trigger]
            indexed(old.objects, old.key, o) && o.id == e.id && o.loc.kind == e.loc.kind
                && blob_at(old.objects, old.key, o.loc) == blob_at(new.objects, new.key, e.loc) by {
            if indexed(old.objects, old.key, e) {
            } else {
                assert(file_entries(old.key, bytes).unwrap().contains(e));
                assert(indexed(old.objects, old.key, old.entry(e.id)));
            }
        }
        assert forall|id: Id| #[trigger]
            reachable(store_world(old.objects, old.key), roots(old.objects, old.key), id)
            implies held(new.objects, new.key, id) by {
            assert(store_world(old.objects, old.key).contains_key(id));
            let loc = crate::clean::place(old.objects, old.key, id);
            assert(indexed(old.objects, old.key, Entry { id, loc }));
            assert(indexed(new.objects, new.key, Entry { id, loc }));
        }
        lemma_store_step(old.objects, new.objects, old.key);
    }
}

/// Removing index files beside one that mirrors the index in memory
/// changes no blob of the repository and keeps a clean store clean.
pub proof fn lemma_indexes_dropped(old: RepoView, new: RepoView, keep: Id)
    requires
        indexes_removed(old.objects, new.objects, keep),
        new == (RepoView { objects: new.objects, ..old }),
        old.pending == Map::<Id, Pending>::empty(),
        mirrors(old, keep),
        old.objects.contains_key((FileType::Index, keep)),
    ensures
        mirrors(new, keep),
        new.backed(),
        new.world() == old.world(),
        new.stored() == old.stored(),
        new.roots() == old.roots(),
        forall|e: Entry| #[trigger]
            indexed(new.objects, new.key, e) ==> indexed(old.objects, old.key, e),
        store_clean(old.objects, old.key) && closed(old.world()) && rooted(
            old.stored(),
            old.roots(),
        ) ==> store_clean(new.objects, new.key),
{
    assert(new.objects.contains_key((FileType::Index, keep)));
    assert forall|e: Entry| #[trigger] lists(new.objects, new.key, keep, e) <==> lists(
        old.objects,
        old.key,
        keep,
        e,
    ) by {}
    assert forall|e: Entry| #[trigger] indexed(new.objects, new.key, e) implies indexed(
        old.objects,
        old.key,
        e,
    ) by {
        let f = choose|f: Id| #[trigger] lists(new.objects, new.key, f, e);
        assert(lists(old.objects, old.key, f, e));
    }
    assert forall|id: Id| #[trigger] new.index.contains_key(id) implies indexed(
        new.objects,
        new.key,
        new.entry(id),
    ) by {
        assert(lists(new.objects, new.key, keep, new.entry(id)));
    }
    assert forall|loc: Location| #[trigger] blob_at(new.objects, new.key, loc) == blob_at(
        old.objects,
        old.key,
        loc,
    ) by {
        if old.objects.contains_key((FileType::Pack, loc.pack)) {
            assert(new.objects.contains_key((FileType::Pack, loc.pack)));
        }
    }
    assert(new.stored() =~= old.stored());
    assert(new.world() =~= old.world());
    assert forall|t: Id| new.roots().contains(t) == old.roots().contains(t) by {
        if new.roots().contains(t) {
            let sid = choose|sid: Id| #[trigger] roots_at(new.objects, new.key, sid, t);
            assert(roots_at(old.objects, old.key, sid, t));
        }
        if old.roots().contains(t) {
            let sid = choose|sid: Id| #[trigger] roots_at(old.objects, old.key, sid, t);
            assert(new.objects.contains_key((FileType::Snapshot, sid)));
            assert(roots_at(new.objects, new.key, sid, t));
        }
    }
    assert(new.roots() =~= old.roots());
    if store_clean(old.objects, old.key) && closed(old.world()) && rooted(
        old.stored(),
        old.roots(),
    ) {
        let whole = store_world(old.objects, old.key);
        assert(old.world() =~= old.stored());
        assert forall|id: Id| #[trigger] old.index.contains_key(id) implies whole.contains_key(id)
            && whole[id] == old.world()[id] by {
            assert(lists(old.objects, old.key, keep, old.entry(id)));
            assert(indexed(old.objects, old.key, old.entry(id)));
            crate::clean::lemma_listed_resolves(old.objects, old.key, old.entry(id));
        }
        assert forall|r: Id| old.roots().contains(r) implies old.index.dom().contains(r) by {
            assert(old.stored().contains_key(r));
        }
        assert forall|a: Id, b: Id|
            old.index.dom().contains(a) && #[trigger] crate::world::refs(whole, a).contains(
                b,
            ) implies old.index.dom().contains(b) by {
            assert(old.index.contains_key(a));
            assert(whole[a] == old.world()[a]);
            assert(crate::world::refs(old.world(), a).contains(b));
        }
        crate::world::lemma_reachable_within(whole, old.roots(), old.index.dom());
        assert forall|e: Entry| #[trigger]
            indexed(new.objects, new.key, e) implies exists|o: Entry| #[trigger]
            indexed(old.objects, old.key, o) && o.id == e.id && o.loc.kind == e.loc.kind
                && blob_at(old.objects, old.key, o.loc) == blob_at(new.objects, new.key, e.loc) by {
            assert(indexed(old.objects, old.key, e));
        }
        assert forall|id: Id| #[trigger]
            reachable(whole, roots(old.objects, old.key), id) implies held(
            new.objects,
            new.key,
            id,
        ) by {
            assert(old.index.dom().contains(id));
            assert(lists(new.objects, new.key, keep, new.entry(id)));
            assert(indexed(new.objects, new.key, Entry { id, loc: new.index[id] }));
        }
        lemma_store_step(old.objects, new.objects, old.key);
    }
}

/// Removing packs in which no blob of the index lies, where the index
/// files list exactly the index in memory, changes no blob of the
/// repository and keeps a clean store clean.
pub proof fn lemma_packs_dropped(old: RepoView, new: RepoView)
    requires
        packs_removed(old.objects, new.objects),
        new == (RepoView { objects: new.objects, ..old }),
        old.pending == Map::<Id, Pending>::empty(),
        exact(old),
        forall|id: Id| #[trigger]
            old.index.contains_key(id) ==> new.objects.contains_key(
                (FileType::Pack, old.index[id].pack),
            ) || !old.objects.contains_key((FileType::Pack, old.index[id].pack)),
    ensures
        exact(new),
        new.backed(),
        new.world() == old.world(),
        new.stored() == old.stored(),
        new.roots() == old.roots(),
        new.coherent(),
        store_clean(old.objects, old.key) ==> store_clean(new.objects, new.key),
{
    assert forall|e: Entry| #[trigger] indexed(new.objects, new.key, e) == indexed(
        old.objects,
        old.key,
        e,
    ) by {
        if indexed(new.objects, new.key, e) {
            let f = choose|f: Id| #[trigger] lists(new.objects, new.key, f, e);
            assert(lists(old.objects, old.key, f, e));
        }
        if indexed(old.objects, old.key, e) {
            let f = choose|f: Id| #[trigger] lists(old.objects, old.key, f, e);
            assert(new.objects.contains_key((FileType::Index, f)));
            assert(lists(new.objects, new.key, f, e));
        }
    }
    assert forall|id: Id| #[trigger] new.index.contains_key(id) implies indexed(
        new.objects,
        new.key,
        new.entry(id),
    ) by {
        assert(indexed(old.objects, old.key, old.entry(id)));
    }
    assert forall|id: Id| #[trigger] old.index.contains_key(id) implies blob_at(
        new.objects,
        new.key,
        old.index[id],
    ) == blob_at(old.objects, old.key, old.index[id]) by {}
    assert(new.stored() =~= old.stored());
    assert(new.world() =~= old.world());
    assert forall|t: Id| new.roots().contains(t) == old.roots().contains(t) by {
        if new.roots().contains(t) {
            let sid = choose|sid: Id| #[trigger] roots_at(new.objects, new.key, sid, t);
            assert(roots_at(old.objects, old.key, sid, t));
        }
        if old.roots().contains(t) {
            let sid = choose|sid: Id| #[trigger] roots_at(old.objects, old.key, sid, t);
            assert(new.objects.contains_key((FileType::Snapshot, sid)));
            assert(roots_at(new.objects, new.key, sid, t));
        }
    }
    assert(new.roots() =~= old.roots());
    if store_clean(old.objects, old.key) {
        assert forall|e: Entry| #[trigger]
            indexed(new.objects, new.key, e) implies exists|o: Entry| #[trigger]
            indexed(old.objects, old.key, o) && o.id == e.id && o.loc.kind == e.loc.kind
                && blob_at(old.objects, old.key, o.loc) == blob_at(new.objects, new.key, e.loc) by {
            assert(indexed(old.objects, old.key, e));
            assert(old.index.contains_key(e.id) && old.index[e.id] == e.loc);
        }
        assert forall|id: Id| #[trigger]
            reachable(store_world(old.objects, old.key), roots(old.objects, old.key), id)
            implies held(new.objects, new.key, id) by {
            assert(store_world(old.objects, old.key).contains_key(id));
            let loc = crate::clean::place(old.objects, old.key, id);
            assert(indexed(old.objects, old.key, Entry { id, loc }));
            assert(indexed(new.objects, new.key, Entry { id, loc }));
        }
        lemma_store_step(old.objects, new.objects, old.key);
    }
}

/// Where the index files list exactly the index in memory, the index is
/// synced and the index files agree with it.
pub proof fn lemma_exact(v: RepoView)
    requires
        exact(v),
    ensures
        v.synced(),
        v.coherent(),
{
    assert forall|id: Id| #[trigger] v.index.contains_key(id) implies indexed(
        v.objects,
        v.key,
        v.entry(id),
    ) by {}
}

/// Every staged entry lies in `body` and its segment opens to what the
/// index of `base` held for the address.
pub open spec fn staged_ok(base: RepoView, body: Seq<u8>, staged: Seq<Entry>) -> bool {
    forall|j: int|
        0 <= j < staged.len() ==> {
            &&& base.index.contains_key((#[trigger] staged[j]).id)
            &&& base.objects.contains_key((FileType::Pack, base.index[staged[j].id].pack))
            &&& staged[j].loc.kind == base.index[staged[j].id].kind
            &&& staged[j].loc.offset + staged[j].loc.length <= body.len()
            &&& opened_blob(
                base.key,
                body.subrange(
                    staged[j].loc.offset as int,
                    staged[j].loc.offset + staged[j].loc.length,
                ),
            ) == blob_at(base.objects, base.key, base.index[staged[j].id])
        }
}

/// Whether the address has a place in `live` or is staged.
pub open spec fn covered(live: Map<Id, Location>, staged: Seq<Entry>, id: Id) -> bool {
    live.contains_key(id) || names(staged, id)
}

/// No address is staged twice.
pub open spec fn staged_once(staged: Seq<Entry>) -> bool {
    forall|i: int, j: int|
        0 <= i < j < staged.len() ==> (#[trigger] staged[i]).id != (#[trigger] staged[j]).id
}

/// What an error of a maintenance run says of the repository `old` on
/// which it began: `Invalid`, that blobs wait to be packed or that more
/// is reachable than one index file can list; `NotFound`, that a
/// reachable blob is missing or has no segment at its place; `Corrupt`,
/// that an index file, a snapshot or a reachable tree cannot be read, or
/// that a reachable blob has no segment at its place. What is reachable
/// is judged with the index read anew from the index files.
#[verifier::opaque]
pub open spec fn stopped(old: RepoView, kind: ErrorKind) -> bool {
    &&& kind == ErrorKind::Invalid ==> old.pending != Map::<Id, Pending>::empty() || exists|
        v: RepoView,
    | #[trigger]
        reread(old, v) && 89 * reach_set(v).len() > MAX_MESSAGE
    &&& kind == ErrorKind::NotFound ==> exists|v: RepoView| #[trigger]
        reread(old, v) && (missing_in(v) || unplaced_in(v))
    &&& kind == ErrorKind::Corrupt ==> bad_index(old.objects, old.key) || exists|v: RepoView| #[trigger]
        reread(old, v) && (unreadable_in(v) || unplaced_in(v))
}

/// An error of another kind says nothing of the repository.
pub proof fn lemma_stopped_other(old: RepoView, kind: ErrorKind)
    requires
        kind != ErrorKind::Invalid,
        kind != ErrorKind::NotFound,
        kind != ErrorKind::Corrupt,
    ensures
        stopped(old, kind),
{
    reveal(stopped);
}

/// `Invalid` where blobs wait, and `Corrupt` where an index file cannot be
/// read.
pub proof fn lemma_stopped_early(old: RepoView, kind: ErrorKind)
    requires
        kind == ErrorKind::Invalid ==> old.pending != Map::<Id, Pending>::empty(),
        kind == ErrorKind::Corrupt ==> bad_index(old.objects, old.key),
        kind != ErrorKind::NotFound,
    ensures
        stopped(old, kind),
{
    reveal(stopped);
}

/// An error that the repository with its index read anew accounts for.
pub proof fn lemma_stopped_reread(old: RepoView, v: RepoView, kind: ErrorKind)
    requires
        reread(old, v),
        kind == ErrorKind::Invalid ==> 89 * reach_set(v).len() > MAX_MESSAGE,
        kind == ErrorKind::NotFound ==> missing_in(v) || unplaced_in(v),
        kind == ErrorKind::Corrupt ==> unreadable_in(v) || unplaced_in(v),
    ensures
        stopped(old, kind),
{
    reveal(stopped);
}

/// A reachable blob for whose pack a plan of the repository has no
/// decision lies in a pack that is gone; one that lies beyond the end of
/// its pack has no segment either.
pub proof fn lemma_unplaced(v: RepoView, plan: Plan)
    requires
        v.pending == Map::<Id, Pending>::empty(),
        ready(v, plan),
    ensures
        undecided(v, plan) || misplaced(v, plan) ==> unplaced_in(v),
{
    assert(v.world() =~= v.stored());
    if undecided(v, plan) {
        let id = choose|id: Id| #[trigger]
            plan.reach@.contains_key(id) && !plan.actions@.contains_key(v.index[id].pack);
        assert(mark_of(v.world(), id) == Mark::Held);
        assert(!v.objects.contains_key((FileType::Pack, v.index[id].pack)));
        assert(reachable(v.world(), v.roots(), id));
    } else if misplaced(v, plan) {
        let id = choose|id: Id| #[trigger]
            plan.reach@.contains_key(id) && segment(v.objects, v.index[id]) is None;
        assert(mark_of(v.world(), id) == Mark::Held);
        assert(reachable(v.world(), v.roots(), id));
    }
}

impl<B: Backend> Repository<B> {
    /// Reads the index files anew into the index in memory. Fails with
    /// `Corrupt` where an index file cannot be read; on a reliable backend
    /// it succeeds where every index file can.
    pub fn reload_index(&mut self) -> (r: Result<(), Error>)
        requires
            old(self).wf(),
            old(self)@.pending == Map::<Id, Pending>::empty(),
        ensures
            final(self).wf(),
            final(self).reliable() == old(self).reliable(),
            final(self).spec_config() == old(self).spec_config(),
            final(self)@.objects == old(self)@.objects,
            final(self)@.key == old(self)@.key,
            final(self)@.pending == old(self)@.pending,
            match r {
                Ok(()) => final(self)@.synced() && !bad_index(old(self)@.objects, old(self)@.key),
                Err(e) => {
                    &&& final(self)@ == old(self)@
                    &&& e.kind == ErrorKind::Corrupt || e.kind == ErrorKind::BackendTransient
                    &&& e.kind == ErrorKind::Corrupt ==> bad_index(
                        old(self)@.objects,
                        old(self)@.key,
                    )
                    &&& e.kind == ErrorKind::BackendTransient ==> !old(self).reliable()
                },
            },
    {
        let files = match self.backend.list(FileType::Index) {
            Ok(f) => f,
            Err(e) => {
                return Err(e);
            },
        };
        let mut index: IdMap<Location> = IdMap::new();
        let ghost objects = self@.objects;
        let ghost key = self@.key;
        let mut i: usize = 0;
        while i < files.len()
            invariant
                i <= files@.len(),
                self.wf(),
                *self == *old(self),
                objects == self@.objects,
                key == self@.key,
                index.wf(),
                forall|f: Id| #[trigger]
                    files@.contains(f) <==> objects.contains_key((FileType::Index, f)),
                forall|id: Id| #[trigger]
                    index@.contains_key(id) ==> indexed(objects, key, Entry { id, loc: index@[id] }),
                forall|j: int, e: Entry|
                    0 <= j < i && #[trigger] lists(objects, key, files@[j], e)
                        ==> index@.contains_key(e.id),
                forall|j: int|
                    0 <= j < i ==> file_entries(
                        key,
                        #[trigger] objects[(FileType::Index, files@[j])],
                    ) is Some,
            decreases files@.len() - i,
        {
            let f = files[i];
            assert(files@.contains(f));
            let data = match self.backend.read_all(FileType::Index, &f) {
                Ok(d) => d,
                Err(e) => {
                    return Err(Error::at(ErrorKind::BackendTransient, FileType::Index, f));
                },
            };
            let plain = match crate::crypto::decrypt(&self.key.bytes, data.as_slice()) {
                Ok(p) => p,
                Err(e) => {
                    return Err(Error::at(ErrorKind::Corrupt, FileType::Index, f));
                },
            };
            let entries = match crate::store::read_entries(plain.as_slice()) {
                Some(es) => es,
                None => {
                    return Err(Error::at(ErrorKind::Corrupt, FileType::Index, f));
                },
            };
            let ghost before = index@;
            install(&mut index, &entries);
            proof {
                assert(file_entries(key, objects[(FileType::Index, f)]) == Some(entries@));
                assert forall|id: Id| #[trigger] index@.contains_key(id) implies indexed(
                    objects,
                    key,
                    Entry { id, loc: index@[id] },
                ) by {
                    if names(entries@, id) {
                        let j = choose|j: int|
                            0 <= j < entries@.len() && (#[trigger] entries@[j]).id == id
                                && index@[id] == entries@[j].loc;
                        assert(entries@[j] == Entry { id, loc: index@[id] });
                        assert(entries@.contains(entries@[j]));
                        assert(lists(objects, key, f, entries@[j]));
                    } else {
                        assert(before.contains_key(id));
                        assert(index@[id] == before[id]);
                    }
                }
                assert forall|j: int, e: Entry|
                    0 <= j < i + 1 && #[trigger] lists(
                        objects,
                        key,
                        files@[j],
                        e,
                    ) implies index@.contains_key(e.id) by {
                    if j == i {
                        let k = choose|k: int| 0 <= k < entries@.len() && entries@[k] == e;
                        assert(entries@[k].id == e.id);
                        assert(names(entries@, e.id));
                    } else {
                        assert(before.contains_key(e.id));
                    }
                }
            }
            i += 1;
        }
        self.index = index;
        proof {
            assert forall|f: Id|
                objects.contains_key((FileType::Index, f)) implies #[trigger] file_entries(
                key,
                objects[(FileType::Index, f)],
            ) is Some by {
                assert(files@.contains(f));
                let j = choose|j: int| 0 <= j < files@.len() && files@[j] == f;
                assert(file_entries(key, objects[(FileType::Index, files@[j])]) is Some);
            }
            assert forall|e: Entry| #[trigger]
                indexed(self@.objects, self@.key, e) implies self@.index.contains_key(e.id) by {
                let f = choose|f: Id| #[trigger] lists(objects, key, f, e);
                assert(files@.contains(f));
                let j = choose|j: int| 0 <= j < files@.len() && files@[j] == f;
                assert(lists(objects, key, files@[j], e));
            }
        }
        Ok(())
    }

    /// Walks what the snapshots reach. Fails with `NotFound` where a
    /// snapshot reaches an address under which there is no blob, and with
    /// `Corrupt` where a snapshot or a reachable tree cannot be read: then
    /// nobody knows what must be kept.
    pub fn walk(&self) -> (r: Result<IdMap<Mark>, Error>)
        requires
            self.wf(),
            self@.pending == Map::<Id, Pending>::empty(),
        ensures
            match r {
                Ok(reach) => walked(self@, reach),
                Err(e) => {
                    &&& e.kind == ErrorKind::NotFound || e.kind == ErrorKind::Corrupt || e.kind
                        == ErrorKind::BackendTransient
                    &&& e.kind == ErrorKind::BackendTransient ==> !self.reliable()
                    &&& e.kind == ErrorKind::NotFound ==> missing_in(self@)
                    &&& e.kind == ErrorKind::Corrupt ==> unreadable_in(self@)
                },
            },
    {
        let ghost world = self@.world();
        let roots = match self.live_roots() {
            Ok(r) => r,
            Err(e) => {
                return Err(e);
            },
        };
        if roots.unreadable.len() > 0 {
            assert(roots.unreadable@.contains(roots.unreadable@[0]));
            return Err(Error::at(ErrorKind::Corrupt, FileType::Snapshot, roots.unreadable[0]));
        }
        proof {
            assert forall|sid: Id| #[trigger]
                self@.objects.contains_key((FileType::Snapshot, sid)) implies snapshot_in(
                self@.objects,
                self@.key,
                sid,
            ) is Some by {
                if snapshot_in(self@.objects, self@.key, sid) is None {
                    assert(roots.unreadable@.contains(sid));
                    let j = choose|j: int|
                        0 <= j < roots.unreadable@.len() && roots.unreadable@[j] == sid;
                }
            }
        }
        let reach = match self.reach(&roots.trees) {
            Ok(s) => s,
            Err(e) => {
                return Err(e);
            },
        };
        let keys = reach.keys();
        let mut i: usize = 0;
        while i < keys.len()
            invariant
                i <= keys@.len(),
                reach.wf(),
                world == self@.world(),
                forall|id: Id| #[trigger]
                    reach@.contains_key(id) <==> reachable(world, self@.roots(), id),
                forall|id: Id| #[trigger]
                    reach@.contains_key(id) ==> reach@[id] == mark_of(world, id),
                forall|k: Id| #[trigger] keys@.contains(k) <==> reach@.contains_key(k),
                forall|j: int| 0 <= j < i ==> reach@[#[trigger] keys@[j]] == Mark::Held,
            decreases keys@.len() - i,
        {
            let k = keys[i];
            assert(keys@.contains(k));
            let mark = match reach.get(&k) {
                Some(m) => *m,
                None => Mark::Held,
            };
            match mark {
                Mark::Held => {},
                Mark::Absent => {
                    proof {
                        assert(reachable(world, self@.roots(), k));
                        assert(mark_of(world, k) == Mark::Absent);
                    }
                    return Err(Error::bare(ErrorKind::NotFound));
                },
                Mark::Unreadable => {
                    proof {
                        assert(reachable(world, self@.roots(), k));
                        assert(mark_of(world, k) == Mark::Unreadable);
                    }
                    return Err(Error::bare(ErrorKind::Corrupt));
                },
            }
            i += 1;
        }
        proof {
            assert forall|id: Id| #[trigger] reach@.contains_key(id) implies mark_of(world, id)
                == Mark::Held by {
                assert(keys@.contains(id));
                let j = choose|j: int| 0 <= j < keys@.len() && keys@[j] == id;
                assert(reach@[keys@[j]] == Mark::Held);
            }
        }
        Ok(reach)
    }

    /// Classifies every pack by how much of it the walk found reachable,
    /// and lists the index files.
    pub fn plan_packs(&self, reach: IdMap<Mark>, threshold: u8) -> (r: Result<Plan, Error>)
        requires
            self.wf(),
            self@.pending == Map::<Id, Pending>::empty(),
            walked(self@, reach),
        ensures
            match r {
                Ok(plan) => plan.reach == reach && plan.fits(
                    self@,
                    threshold,
                    self.index.spec_keys(),
                ),
                Err(e) => e.kind == ErrorKind::BackendTransient && !self.reliable(),
            },
    {
        let uses = tally(&self.index, &reach);
        let ids = match self.backend.list(FileType::Pack) {
            Ok(ids) => ids,
            Err(e) => {
                return Err(e);
            },
        };
        let mut packs: Vec<PackPlan> = Vec::new();
        let mut actions: IdMap<PackAction> = IdMap::new();
        let mut j: usize = 0;
        while j < ids.len()
            invariant
                j <= ids@.len(),
                self.wf(),
                uses.wf(),
                actions.wf(),
                ids@.no_duplicates(),
                packs@.len() == j,
                forall|p: Id| #[trigger]
                    ids@.contains(p) <==> self@.objects.contains_key((FileType::Pack, p)),
                forall|p: Id| #[trigger]
                    uses@.contains_key(p) ==> uses@[p] == usage(
                        self.index.spec_keys(),
                        self@.index,
                        reach@,
                        p,
                    ),
                forall|p: Id|
                    !uses@.contains_key(p) ==> #[trigger] usage(
                        self.index.spec_keys(),
                        self@.index,
                        reach@,
                        p,
                    ) == (PackUse { blobs: 0, bytes: 0 }),
                forall|p: Id| #[trigger]
                    actions@.contains_key(p) <==> exists|k: int| 0 <= k < j && ids@[k] == p,
                forall|k: int|
                    0 <= k < j ==> {
                        &&& (#[trigger] packs@[k]).pack == ids@[k]
                        &&& packs@[k].size == self@.objects[(FileType::Pack, ids@[k])].len()
                        &&& packs@[k].live == usage(
                            self.index.spec_keys(),
                            self@.index,
                            reach@,
                            ids@[k],
                        )
                        &&& packs@[k].action == spec_classify(
                            packs@[k].live.blobs,
                            packs@[k].live.bytes,
                            packs@[k].size,
                            threshold,
                        )
                        &&& actions@.contains_key(ids@[k])
                        &&& actions@[ids@[k]] == packs@[k].action
                    },
            decreases ids@.len() - j,
        {
            let p = ids[j];
            assert(ids@.contains(p));
            let size = match self.backend.size(FileType::Pack, &p) {
                Ok(n) => n,
                Err(e) => {
                    return Err(Error::at(ErrorKind::BackendTransient, FileType::Pack, p));
                },
            };
            let live = match uses.get(&p) {
                Some(u) => *u,
                None => PackUse { blobs: 0, bytes: 0 },
            };
            let action = classify(live.blobs, live.bytes, size, threshold);
            let ghost a0 = actions@;
            let ghost p0 = packs@;
            packs.push(PackPlan { pack: p, size, live, action });
            actions.insert(p, action);
            proof {
                assert forall|q: Id| #[trigger]
                    actions@.contains_key(q) <==> exists|k: int|
                        0 <= k < j + 1 && ids@[k] == q by {
                    if a0.contains_key(q) {
                        let k = choose|k: int| 0 <= k < j && ids@[k] == q;
                        assert(0 <= k < j + 1 && ids@[k] == q);
                    }
                    if q == p {
                        assert(ids@[j as int] == q);
                    }
                    if exists|k: int| 0 <= k < j + 1 && ids@[k] == q {
                        let k = choose|k: int| 0 <= k < j + 1 && ids@[k] == q;
                        if k < j {
                            assert(a0.contains_key(q));
                        }
                    }
                }
                assert forall|k: int| 0 <= k < j + 1 implies {
                    &&& (#[trigger] packs@[k]).pack == ids@[k]
                    &&& packs@[k].size == self@.objects[(FileType::Pack, ids@[k])].len()
                    &&& packs@[k].live == usage(
                        self.index.spec_keys(),
                        self@.index,
                        reach@,
                        ids@[k],
                    )
                    &&& packs@[k].action == spec_classify(
                        packs@[k].live.blobs,
                        packs@[k].live.bytes,
                        packs@[k].size,
                        threshold,
                    )
                    &&& actions@.contains_key(ids@[k])
                    &&& actions@[ids@[k]] == packs@[k].action
                } by {
                    if k < j {
                        assert(packs@[k] == p0[k]);
                        assert(ids@[k] != ids@[j as int]);
                    }
                }
            }
            j += 1;
        }
        let files = match self.backend.list(FileType::Index) {
            Ok(f) => f,
            Err(e) => {
                return Err(e);
            },
        };
        proof {
            assert forall|p: Id|
                (exists|i: int| 0 <= i < packs@.len() && (#[trigger] packs@[i]).pack == p)
                    <==> self@.objects.contains_key((FileType::Pack, p)) by {
                if exists|i: int| 0 <= i < packs@.len() && (#[trigger] packs@[i]).pack == p {
                    let i = choose|i: int| 0 <= i < packs@.len() && (#[trigger] packs@[i]).pack == p;
                    assert(ids@.contains(ids@[i]));
                }
                if self@.objects.contains_key((FileType::Pack, p)) {
                    assert(ids@.contains(p));
                    let k = choose|k: int| 0 <= k < ids@.len() && ids@[k] == p;
                    assert(packs@[k].pack == p);
                }
            }
            assert forall|p: Id| #[trigger]
                actions@.contains_key(p) implies self@.objects.contains_key(
                (FileType::Pack, p),
            ) by {
                let k = choose|k: int| 0 <= k < ids@.len() && ids@[k] == p;
                assert(ids@.contains(ids@[k]));
            }
        }
        Ok(Plan { reach, packs, actions, files })
    }

    /// Looks at the repository and decides what a prune at `threshold`
    /// percent does: walks what the snapshots reach and classifies every
    /// pack. Nothing is changed. Fails with `NotFound` where a snapshot
    /// reaches an address under which there is no blob, and with `Corrupt`
    /// where a snapshot or a reachable tree cannot be read: then nobody
    /// knows what must be kept.
    pub fn plan_prune(&self, threshold: u8) -> (r: Result<Plan, Error>)
        requires
            self.wf(),
            self@.pending == Map::<Id, Pending>::empty(),
        ensures
            match r {
                Ok(plan) => plan.fits(self@, threshold, self.index.spec_keys()),
                Err(e) => {
                    &&& e.kind == ErrorKind::NotFound || e.kind == ErrorKind::Corrupt || e.kind
                        == ErrorKind::BackendTransient
                    &&& e.kind == ErrorKind::BackendTransient ==> !self.reliable()
                    &&& e.kind == ErrorKind::NotFound ==> missing_in(self@)
                    &&& e.kind == ErrorKind::Corrupt ==> unreadable_in(self@)
                },
            },
    {
        let reach = match self.walk() {
            Ok(r) => r,
            Err(e) => {
                return Err(e);
            },
        };
        self.plan_packs(reach, threshold)
    }

    /// Writes the staged segments as a pack and enters their new places
    /// into `live`.
    fn settle(
        &mut self,
        live: &mut IdMap<Location>,
        body: Vec<u8>,
        staged: &Vec<Entry>,
        Ghost(base): Ghost<RepoView>,
        Ghost(actions): Ghost<Map<Id, PackAction>>,
    ) -> (r: Result<(), Error>)
        requires
            old(self).wf(),
            old(live).wf(),
            staged@.len() <= MAX_QUEUED,
            old(self)@.key == base.key,
            packs_added(base.objects, old(self)@.objects),
            lives_ok(old(self)@, base, actions, old(live)@),
            staged_ok(base, body@, staged@),
            staged_once(staged@),
            forall|id: Id| old(live)@.contains_key(id) ==> !names(staged@, id),
        ensures
            final(self).wf(),
            final(live).wf(),
            final(self).reliable() == old(self).reliable(),
            final(self).spec_config() == old(self).spec_config(),
            final(self)@.index == old(self)@.index,
            final(self)@.pending == old(self)@.pending,
            final(self)@.key == old(self)@.key,
            packs_added(base.objects, final(self)@.objects),
            match r {
                Ok(()) => {
                    &&& lives_ok(final(self)@, base, actions, final(live)@)
                    &&& forall|id: Id| #[trigger]
                        final(live)@.contains_key(id) <==> covered(old(live)@, staged@, id)
                },
                Err(e) => {
                    &&& final(self)@ == old(self)@
                    &&& final(live)@ == old(live)@
                    &&& e.kind == ErrorKind::Entropy || e.kind == ErrorKind::Conflict || e.kind
                        == ErrorKind::BackendTransient
                    &&& e.kind == ErrorKind::BackendTransient ==> !old(self).reliable()
                },
            },
    {
        let ghost v0 = self@;
        let ghost l0 = live@;
        let pack = match self.write_pack(body, staged) {
            Ok(p) => p,
            Err(e) => {
                return Err(e);
            },
        };
        let listed = place(staged, pack);
        install(live, &listed);
        proof {
            let v1 = self@;
            let bytes = v1.objects[(FileType::Pack, pack)];
            assert forall|id: Id| #[trigger]
                live@.contains_key(id) <==> covered(l0, staged@, id) by {
                if names(listed@, id) {
                    let i = choose|i: int| 0 <= i < listed@.len() && (#[trigger] listed@[i]).id == id;
                    assert(staged@[i].id == id);
                }
                if names(staged@, id) {
                    let i = choose|i: int| 0 <= i < staged@.len() && (#[trigger] staged@[i]).id == id;
                    assert(listed@[i].id == id);
                }
            }
            assert forall|id: Id| names(listed@, id) <==> names(staged@, id) by {
                if names(listed@, id) {
                    let i = choose|i: int| 0 <= i < listed@.len() && (#[trigger] listed@[i]).id == id;
                    assert(staged@[i].id == id);
                }
                if names(staged@, id) {
                    let i = choose|i: int| 0 <= i < staged@.len() && (#[trigger] staged@[i]).id == id;
                    assert(listed@[i].id == id);
                }
            }
            assert forall|id: Id| #[trigger] live@.contains_key(id) implies {
                &&& base.index.contains_key(id)
                &&& live@[id].kind == base.index[id].kind
                &&& blob_at(v1.objects, v1.key, live@[id]) == blob_at(
                    base.objects,
                    base.key,
                    base.index[id],
                )
                &&& v1.objects.contains_key((FileType::Pack, live@[id].pack))
                &&& segment(v1.objects, live@[id]) is Some
                &&& base.objects.contains_key((FileType::Pack, base.index[id].pack))
                &&& base.objects.contains_key((FileType::Pack, live@[id].pack))
                    ==> actions.contains_key(live@[id].pack) && actions[live@[id].pack]
                    == PackAction::Keep
            } by {
                if names(listed@, id) {
                    let i = choose|i: int|
                        0 <= i < listed@.len() && (#[trigger] listed@[i]).id == id && live@[id]
                            == listed@[i].loc;
                    let e = staged@[i];
                    assert(listed@[i].id == e.id);
                    assert(bytes.subrange(e.loc.offset as int, e.loc.offset + e.loc.length)
                        =~= bytes.subrange(0, body@.len() as int).subrange(
                        e.loc.offset as int,
                        e.loc.offset + e.loc.length,
                    ));
                    assert(!base.objects.contains_key((FileType::Pack, pack)));
                } else {
                    assert(l0.contains_key(id));
                    assert(live@[id] == l0[id]);
                    assert(segment(v0.objects, l0[id]) is Some);
                    assert(l0[id].pack != pack);
                    crate::store::lemma_blob_at_insert(
                        v0.objects,
                        FileType::Pack,
                        pack,
                        bytes,
                        v0.key,
                        l0[id],
                    );
                }
            }
        }
        Ok(())
    }

    /// Copies the reachable blobs of the packs that are not kept into new
    /// packs, and gives for everything reachable the place where it lies
    /// from now on, inside a pack that is there. The index is left as it
    /// is.
    pub fn repack(&mut self, plan: &Plan) -> (r: Result<IdMap<Location>, Error>)
        requires
            old(self).wf(),
            plan.reach.wf(),
            plan.actions.wf(),
            forall|id: Id| #[trigger]
                plan.reach@.contains_key(id) ==> old(self)@.index.contains_key(id),
            forall|p: Id| #[trigger]
                plan.actions@.contains_key(p) ==> old(self)@.objects.contains_key(
                    (FileType::Pack, p),
                ),
        ensures
            final(self).wf(),
            final(self).reliable() == old(self).reliable(),
            final(self).spec_config() == old(self).spec_config(),
            final(self)@.index == old(self)@.index,
            final(self)@.pending == old(self)@.pending,
            final(self)@.key == old(self)@.key,
            packs_added(old(self)@.objects, final(self)@.objects),
            match r {
                Ok(live) => {
                    &&& live.wf()
                    &&& forall|id: Id| live@.contains_key(id) <==> plan.reach@.contains_key(id)
                    &&& lives_ok(final(self)@, old(self)@, plan.actions@, live@)
                },
                Err(e) => {
                    &&& e.kind == ErrorKind::NotFound || e.kind == ErrorKind::Corrupt || e.kind
                        == ErrorKind::Entropy || e.kind == ErrorKind::Conflict || e.kind
                        == ErrorKind::BackendTransient
                    &&& e.kind == ErrorKind::NotFound ==> undecided(old(self)@, *plan)
                    &&& e.kind == ErrorKind::Corrupt ==> misplaced(old(self)@, *plan)
                    &&& e.kind == ErrorKind::BackendTransient ==> !old(self).reliable()
                },
            },
    {
        let ghost base = self@;
        let ghost actions = plan.actions@;
        let keys = plan.reach.keys();
        let mut live: IdMap<Location> = IdMap::new();
        let mut sizes: IdMap<u64> = IdMap::new();
        let mut body: Vec<u8> = Vec::new();
        let mut staged: Vec<Entry> = Vec::new();
        let mut i: usize = 0;
        assert(keys@.take(0) =~= Seq::<Id>::empty());
        while i < keys.len()
            invariant
                i <= keys@.len(),
                self.wf(),
                live.wf(),
                plan.reach.wf(),
                plan.actions.wf(),
                actions == plan.actions@,
                base == old(self)@,
                keys@.no_duplicates(),
                forall|k: Id| #[trigger] keys@.contains(k) <==> plan.reach@.contains_key(k),
                self.reliable() == old(self).reliable(),
                self.spec_config() == old(self).spec_config(),
                self@.index == base.index,
                self@.pending == base.pending,
                self@.key == base.key,
                packs_added(base.objects, self@.objects),
                forall|id: Id| #[trigger]
                    plan.reach@.contains_key(id) ==> base.index.contains_key(id),
                forall|p: Id| #[trigger]
                    actions.contains_key(p) ==> base.objects.contains_key((FileType::Pack, p)),
                staged@.len() < MAX_QUEUED,
                lives_ok(self@, base, actions, live@),
                sizes.wf(),
                forall|p: Id| #[trigger]
                    sizes@.contains_key(p) ==> base.objects.contains_key((FileType::Pack, p))
                        && sizes@[p] == base.objects[(FileType::Pack, p)].len(),
                staged_ok(base, body@, staged@),
                staged_once(staged@),
                forall|id: Id| live@.contains_key(id) ==> !names(staged@, id),
                forall|id: Id| #[trigger]
                    covered(live@, staged@, id) <==> keys@.take(i as int).contains(id),
            decreases keys@.len() - i,
        {
            let id = keys[i];
            proof {
                assert(keys@.contains(id));
                lemma_push_contains(keys@.take(i as int), id);
                assert(keys@.take(i + 1) =~= keys@.take(i as int).push(id));
                if keys@.take(i as int).contains(id) {
                    let j = choose|j: int| 0 <= j < i && keys@.take(i as int)[j] == id;
                    assert(keys@[j] == keys@[i as int]);
                }
                lemma_packs_added(base.objects, self@.objects, base.key);
            }
            assert(plan.reach@.contains_key(id));
            assert(base.index.contains_key(id));
            let loc = match self.index.get(&id) {
                Some(loc) => *loc,
                None => {
                    return Err(Error::bare(ErrorKind::NotFound));
                },
            };
            let action = match plan.actions.get(&loc.pack) {
                Some(a) => *a,
                None => {
                    return Err(Error::at(ErrorKind::NotFound, FileType::Pack, loc.pack));
                },
            };
            let ghost l0 = live@;
            let ghost s0 = staged@;
            let ghost b0 = body@;
            match action {
                PackAction::Keep => {
                    assert(base.objects.contains_key((FileType::Pack, loc.pack)));
                    assert(self@.objects[(FileType::Pack, loc.pack)] == base.objects[(
                        FileType::Pack,
                        loc.pack,
                    )]);
                    let known = match sizes.get(&loc.pack) {
                        Some(n) => Some(*n),
                        None => None,
                    };
                    let size = match known {
                        Some(n) => n,
                        None => {
                            let n = match self.backend.size(FileType::Pack, &loc.pack) {
                                Ok(n) => n,
                                Err(e) => {
                                    assert(e.kind == ErrorKind::BackendTransient);
                                    return Err(e);
                                },
                            };
                            sizes.insert(loc.pack, n);
                            n
                        },
                    };
                    if loc.offset > size || loc.length > size - loc.offset {
                        proof {
                            assert(segment(base.objects, base.index[id]) is None);
                        }
                        return Err(Error::at(ErrorKind::Corrupt, FileType::Pack, loc.pack));
                    }
                    assert(segment(self@.objects, loc) is Some);
                    live.insert(id, loc);
                    proof {
                        assert forall|x: Id| #[trigger]
                            covered(live@, staged@, x) <==> keys@.take(i + 1).contains(x) by {
                            assert(keys@.take(i as int).push(id).contains(x) <==> keys@.take(
                                i as int,
                            ).contains(x) || x == id);
                            assert(covered(l0, s0, x) <==> keys@.take(i as int).contains(x));
                        }
                        assert(!names(staged@, id)) by {
                            assert(covered(l0, s0, id) <==> keys@.take(i as int).contains(id));
                        }
                        assert forall|x: Id| #[trigger] live@.contains_key(x) implies {
                            &&& base.index.contains_key(x)
                            &&& live@[x].kind == base.index[x].kind
                            &&& blob_at(self@.objects, self@.key, live@[x]) == blob_at(
                                base.objects,
                                base.key,
                                base.index[x],
                            )
                            &&& self@.objects.contains_key((FileType::Pack, live@[x].pack))
                            &&& segment(self@.objects, live@[x]) is Some
                            &&& base.objects.contains_key((FileType::Pack, base.index[x].pack))
                            &&& base.objects.contains_key((FileType::Pack, live@[x].pack))
                                ==> actions.contains_key(live@[x].pack) && actions[live@[x].pack]
                                == PackAction::Keep
                        } by {
                            if x == id {
                                assert(base.objects.contains_key((FileType::Pack, loc.pack)));
                            } else {
                                assert(l0.contains_key(x));
                            }
                        }
                    }
                },
                _ => {
                    let seg = match self.backend.read(
                        FileType::Pack,
                        &loc.pack,
                        loc.offset,
                        loc.length,
                    ) {
                        Ok(s) => s,
                        Err(e) => {
                            proof {
                                assert(base.objects.contains_key((FileType::Pack, loc.pack)));
                                assert(self@.objects[(FileType::Pack, loc.pack)]
                                    == base.objects[(FileType::Pack, loc.pack)]);
                                if e.kind == ErrorKind::Corrupt {
                                    assert(segment(base.objects, base.index[id]) is None);
                                }
                            }
                            return Err(e);
                        },
                    };
                    let offset = body.len();
                    append(&mut body, seg.as_slice());
                    let e = Entry {
                        id,
                        loc: Location {
                            pack: Id::zero(),
                            offset: offset as u64,
                            length: loc.length,
                            kind: loc.kind,
                        },
                    };
                    staged.push(e);
                    proof {
                        assert(body@.len() == body.len());
                        assert(body@.subrange(offset as int, offset + seg@.len()) =~= seg@);
                        assert(seg@ == base.objects[(FileType::Pack, loc.pack)].subrange(
                            loc.offset as int,
                            loc.offset + loc.length,
                        ));
                        assert forall|j: int| 0 <= j < staged@.len() implies {
                            &&& base.index.contains_key((#[trigger] staged@[j]).id)
                            &&& base.objects.contains_key(
                                (FileType::Pack, base.index[staged@[j].id].pack),
                            )
                            &&& staged@[j].loc.kind == base.index[staged@[j].id].kind
                            &&& staged@[j].loc.offset + staged@[j].loc.length <= body@.len()
                            &&& opened_blob(
                                base.key,
                                body@.subrange(
                                    staged@[j].loc.offset as int,
                                    staged@[j].loc.offset + staged@[j].loc.length,
                                ),
                            ) == blob_at(base.objects, base.key, base.index[staged@[j].id])
                        } by {
                            if j < s0.len() {
                                assert(staged@[j] == s0[j]);
                                assert(body@.subrange(
                                    s0[j].loc.offset as int,
                                    s0[j].loc.offset + s0[j].loc.length,
                                ) =~= b0.subrange(
                                    s0[j].loc.offset as int,
                                    s0[j].loc.offset + s0[j].loc.length,
                                ));
                            }
                        }
                        assert forall|x: Id| names(staged@, x) <==> names(s0, x) || x == id by {
                            if names(staged@, x) {
                                let j = choose|j: int|
                                    0 <= j < staged@.len() && (#[trigger] staged@[j]).id == x;
                                if j < s0.len() {
                                    assert(s0[j].id == x);
                                }
                            }
                            if names(s0, x) {
                                let j = choose|j: int|
                                    0 <= j < s0.len() && (#[trigger] s0[j]).id == x;
                                assert(staged@[j].id == x);
                            }
                            if x == id {
                                assert(staged@[s0.len() as int].id == x);
                            }
                        }
                        assert(staged_once(staged@)) by {
                            assert forall|a: int, b: int| 0 <= a < b < staged@.len() implies (
                            #[trigger] staged@[a]).id != (#[trigger] staged@[b]).id by {
                                if b == s0.len() {
                                    assert(staged@[a] == s0[a]);
                                    assert(names(s0, s0[a].id));
                                    assert(covered(l0, s0, s0[a].id) <==> keys@.take(
                                        i as int,
                                    ).contains(s0[a].id));
                                } else {
                                    assert(staged@[a] == s0[a] && staged@[b] == s0[b]);
                                }
                            }
                        }
                        assert forall|x: Id| #[trigger]
                            covered(live@, staged@, x) <==> keys@.take(i + 1).contains(x) by {
                            assert(keys@.take(i as int).push(id).contains(x) <==> keys@.take(
                                i as int,
                            ).contains(x) || x == id);
                            assert(covered(l0, s0, x) <==> keys@.take(i as int).contains(x));
                        }
                        assert forall|x: Id| live@.contains_key(x) implies !names(staged@, x) by {
                            assert(covered(l0, s0, id) <==> keys@.take(i as int).contains(id));
                            assert(l0.contains_key(x));
                            assert(!names(s0, x));
                            assert(names(staged@, x) <==> names(s0, x) || x == id);
                        }
                    }
                    if staged.len() >= MAX_QUEUED || body.len() >= self.pack_limit {
                        let ghost l1 = live@;
                        let ghost s1 = staged@;
                        match self.settle(&mut live, body, &staged, Ghost(base), Ghost(actions)) {
                            Ok(()) => {},
                            Err(e) => {
                                return Err(e);
                            },
                        }
                        body = Vec::new();
                        staged = Vec::new();
                        proof {
                            assert forall|x: Id| !names(staged@, x) by {
                                if names(staged@, x) {
                                    let j = choose|j: int|
                                        0 <= j < staged@.len() && (#[trigger] staged@[j]).id == x;
                                }
                            }
                            assert forall|x: Id| #[trigger]
                                covered(live@, staged@, x) <==> keys@.take(i + 1).contains(x) by {
                                assert(live@.contains_key(x) <==> covered(l1, s1, x));
                                assert(covered(l1, s1, x) <==> keys@.take(i + 1).contains(x));
                            }
                        }
                    }
                },
            }
            i += 1;
        }
        assert(keys@.take(keys@.len() as int) =~= keys@);
        let ghost l2 = live@;
        let ghost s2 = staged@;
        if staged.len() > 0 {
            match self.settle(&mut live, body, &staged, Ghost(base), Ghost(actions)) {
                Ok(()) => {},
                Err(e) => {
                    return Err(e);
                },
            }
            proof {
                assert forall|x: Id| live@.contains_key(x) <==> plan.reach@.contains_key(x) by {
                    assert(live@.contains_key(x) <==> covered(l2, s2, x));
                    assert(covered(l2, s2, x) <==> keys@.contains(x));
                }
            }
        } else {
            proof {
                assert forall|x: Id| !names(staged@, x) by {
                    if names(staged@, x) {
                        let j = choose|j: int|
                            0 <= j < staged@.len() && (#[trigger] staged@[j]).id == x;
                    }
                }
                assert forall|x: Id| live@.contains_key(x) <==> plan.reach@.contains_key(x) by {
                    assert(covered(l2, s2, x) <==> keys@.contains(x));
                }
            }
        }
        Ok(live)
    }

    /// Repacks according to the plan and gives the index of what is
    /// reachable: for every reachable blob a place, in a pack that the
    /// plan keeps or in a new pack, that holds the blob unchanged. Fails
    /// with `NotFound` or `Corrupt` only where a reachable blob has no
    /// segment at its place.
    pub fn stage(&mut self, plan: &Plan) -> (r: Result<IdMap<Location>, Error>)
        requires
            old(self).wf(),
            old(self)@.pending == Map::<Id, Pending>::empty(),
            ready(old(self)@, *plan),
        ensures
            final(self).wf(),
            final(self).reliable() == old(self).reliable(),
            final(self).spec_config() == old(self).spec_config(),
            final(self)@.index == old(self)@.index,
            final(self)@.pending == old(self)@.pending,
            final(self)@.key == old(self)@.key,
            final(self)@.roots() == old(self)@.roots(),
            packs_added(old(self)@.objects, final(self)@.objects),
            store_clean(old(self)@.objects, old(self)@.key) ==> store_clean(
                final(self)@.objects,
                final(self)@.key,
            ),
            match r {
                Ok(live) => {
                    &&& live.wf()
                    &&& same_blobs(final(self)@, live@)
                    &&& forall|id: Id|
                        live@.contains_key(id) <==> reachable(
                            final(self)@.world(),
                            final(self)@.roots(),
                            id,
                        )
                    &&& forall|id: Id|
                        live@.contains_key(id) <==> reachable(
                            old(self)@.world(),
                            old(self)@.roots(),
                            id,
                        )
                    &&& forall|id: Id| #[trigger]
                        live@.contains_key(id) ==> final(self)@.world()[id] == old(self)@.world()[id]
                    &&& sound(old(self)@.world()) ==> final(self)@.world() == old(self)@.world()
                    &&& placed(final(self)@.objects, live@)
                    &&& forall|id: Id, i: int|
                        live@.contains_key(id) && 0 <= i < plan.packs@.len() && (
                        #[trigger] plan.packs@[i]).pack == (#[trigger] live@[id]).pack
                            ==> plan.packs@[i].action == PackAction::Keep
                },
                Err(e) => {
                    &&& e.kind == ErrorKind::NotFound || e.kind == ErrorKind::Corrupt || e.kind
                        == ErrorKind::Entropy || e.kind == ErrorKind::Conflict || e.kind
                        == ErrorKind::BackendTransient
                    &&& e.kind == ErrorKind::NotFound || e.kind == ErrorKind::Corrupt
                        ==> unplaced_in(old(self)@)
                    &&& e.kind == ErrorKind::BackendTransient ==> !old(self).reliable()
                },
            },
    {
        let ghost v1 = self@;
        proof {
            assert(v1.world() =~= v1.stored());
            assert forall|id: Id| #[trigger] plan.reach@.contains_key(id) implies v1.index.contains_key(
                id,
            ) by {
                assert(mark_of(v1.world(), id) == Mark::Held);
            }
        }
        let live = match self.repack(plan) {
            Ok(l) => l,
            Err(e) => {
                proof {
                    lemma_packs_added(v1.objects, self@.objects, v1.key);
                    lemma_unplaced(v1, *plan);
                }
                return Err(e);
            },
        };
        proof {
            let v2 = self@;
            assert(placed(v2.objects, live@)) by {
                reveal(placed);
            }
            lemma_packs_added(v1.objects, v2.objects, v1.key);
            assert(v2.world() =~= v2.stored());
            assert forall|id: Id| #[trigger] live@.contains_key(id) implies {
                &&& v2.index.contains_key(id)
                &&& live@[id].kind == v2.index[id].kind
                &&& blob_at(v2.objects, v2.key, live@[id]) == blob_at(
                    v2.objects,
                    v2.key,
                    v2.index[id],
                )
                &&& v2.world()[id] == v1.world()[id]
            } by {
                assert(blob_at(v2.objects, v2.key, v1.index[id]) == blob_at(
                    v1.objects,
                    v1.key,
                    v1.index[id],
                ));
            }
            assert forall|id: Id| #[trigger]
                reachable(v1.world(), v1.roots(), id) implies crate::world::refs(v1.world(), id)
                == crate::world::refs(v2.world(), id) by {
                assert(plan.reach@.contains_key(id));
                assert(live@.contains_key(id));
            }
            crate::clean::lemma_same_reach(v1.world(), v2.world(), v1.roots());
            assert forall|id: Id|
                live@.contains_key(id) <==> reachable(v2.world(), v2.roots(), id) by {
                assert(plan.reach@.contains_key(id) <==> reachable(v1.world(), v1.roots(), id));
            }
            assert forall|id: Id|
                live@.contains_key(id) <==> reachable(v1.world(), v1.roots(), id) by {
                assert(plan.reach@.contains_key(id) <==> reachable(v1.world(), v1.roots(), id));
            }
            if sound(v1.world()) {
                assert forall|id: Id| v1.world().contains_key(id) implies v2.world()[id]
                    == v1.world()[id] by {
                    assert(v1.world()[id].content is Some);
                    assert(segment(v1.objects, v1.index[id]) is Some);
                }
                assert(v2.world() =~= v1.world());
            }
            assert forall|id: Id, i: int|
                live@.contains_key(id) && 0 <= i < plan.packs@.len() && (
                #[trigger] plan.packs@[i]).pack == (#[trigger] live@[id]).pack
                implies plan.packs@[i].action == PackAction::Keep by {
                assert(plan.actions@[plan.packs@[i].pack] == plan.packs@[i].action);
                assert(v1.objects.contains_key((FileType::Pack, plan.packs@[i].pack)));
            }
        }
        Ok(live)
    }

    /// Writes one index file that lists every place of `map`, and takes
    /// `map` for the index in memory. Fails with `Invalid` where the list
    /// is too long for one file; a failure changes nothing.
    pub fn write_index(&mut self, map: IdMap<Location>) -> (r: Result<Id, Error>)
        requires
            old(self).wf(),
            old(self)@.pending == Map::<Id, Pending>::empty(),
            map.wf(),
        ensures
            final(self).wf(),
            final(self).reliable() == old(self).reliable(),
            final(self).spec_config() == old(self).spec_config(),
            final(self)@.key == old(self)@.key,
            final(self)@.pending == old(self)@.pending,
            final(self)@.roots() == old(self)@.roots(),
            match r {
                Ok(n) => {
                    &&& !old(self)@.objects.contains_key((FileType::Index, n))
                    &&& final(self)@.objects.contains_key((FileType::Index, n))
                    &&& final(self)@.objects == old(self)@.objects.insert(
                        (FileType::Index, n),
                        final(self)@.objects[(FileType::Index, n)],
                    )
                    &&& final(self)@.index == map@
                    &&& mirrors(final(self)@, n)
                    &&& file_entries(
                        final(self)@.key,
                        final(self)@.objects[(FileType::Index, n)],
                    ) is Some
                    &&& forall|e: Entry|
                        file_entries(
                            final(self)@.key,
                            final(self)@.objects[(FileType::Index, n)],
                        ).unwrap().contains(e) <==> map@.contains_key(e.id) && map@[e.id] == e.loc
                },
                Err(e) => {
                    &&& final(self)@ == old(self)@
                    &&& e.kind == ErrorKind::Invalid || e.kind == ErrorKind::Entropy || e.kind
                        == ErrorKind::Conflict || e.kind == ErrorKind::BackendTransient
                    &&& e.kind == ErrorKind::Invalid <==> 89 * map@.dom().len() > MAX_MESSAGE
                    &&& e.kind == ErrorKind::BackendTransient ==> !old(self).reliable()
                },
            },
    {
        let ghost v0 = self@;
        let keys = map.keys();
        let mut entries: Vec<Entry> = Vec::new();
        let mut i: usize = 0;
        while i < keys.len()
            invariant
                i <= keys@.len(),
                map.wf(),
                entries@.len() == i,
                forall|k: Id| #[trigger] keys@.contains(k) <==> map@.contains_key(k),
                forall|j: int|
                    0 <= j < i ==> #[trigger] entries@[j] == (Entry {
                        id: keys@[j],
                        loc: map@[keys@[j]],
                    }),
            decreases keys@.len() - i,
        {
            let id = keys[i];
            assert(keys@.contains(id));
            let loc = match map.get(&id) {
                Some(loc) => *loc,
                None => Location { pack: id, offset: 0, length: 0, kind: BlobKind::Data },
            };
            entries.push(Entry { id, loc });
            i += 1;
        }
        proof {
            assert forall|e: Entry|
                entries@.contains(e) <==> map@.contains_key(e.id) && map@[e.id] == e.loc by {
                if entries@.contains(e) {
                    let j = choose|j: int| 0 <= j < entries@.len() && entries@[j] == e;
                    assert(keys@.contains(keys@[j]));
                }
                if map@.contains_key(e.id) && map@[e.id] == e.loc {
                    assert(keys@.contains(e.id));
                    let j = choose|j: int| 0 <= j < keys@.len() && keys@[j] == e.id;
                    assert(entries@[j] == e);
                }
            }
            lemma_entries_round_trip(entries@);
            lemma_entries_len(entries@);
            map.lemma_keys();
        }
        let plain = write_entries(&entries);
        let file = match encrypt(&self.key.bytes, plain.as_slice()) {
            Ok(f) => f,
            Err(e) => {
                return Err(e);
            },
        };
        let n = Id::of(file.as_slice());
        match self.backend.write(FileType::Index, &n, file.as_slice()) {
            Ok(()) => {},
            Err(e) => {
                assert(self@ == v0);
                return Err(e);
            },
        }
        self.index = map;
        proof {
            let v1 = self@;
            lemma_indexed_insert_index(v0.objects, n, file@, v0.key);
            lemma_roots_insert_other(v0.objects, FileType::Index, n, file@, v0.key);
            assert(v1.objects =~= v0.objects.insert(
                (FileType::Index, n),
                v1.objects[(FileType::Index, n)],
            ));
            assert forall|e: Entry| #[trigger] lists(v1.objects, v1.key, n, e) <==> v1.index.contains_key(
                e.id,
            ) && v1.index[e.id] == e.loc by {}
            assert forall|id: Id| #[trigger] v1.index.contains_key(id) implies indexed(
                v1.objects,
                v1.key,
                v1.entry(id),
            ) by {
                assert(lists(v1.objects, v1.key, n, v1.entry(id)));
            }
        }
        Ok(n)
    }

    /// Commits the index of what is reachable: writes one index file that
    /// lists every place of `live`, and takes `live` for the index in
    /// memory. From then on the repository holds what is reachable and
    /// nothing else. Fails with `Invalid` where the list is too long for
    /// one file; a failure changes nothing.
    pub fn commit_index(&mut self, live: IdMap<Location>) -> (r: Result<Id, Error>)
        requires
            old(self).wf(),
            old(self)@.pending == Map::<Id, Pending>::empty(),
            live.wf(),
            same_blobs(old(self)@, live@),
            forall|id: Id|
                live@.contains_key(id) <==> reachable(old(self)@.world(), old(self)@.roots(), id),
        ensures
            final(self).wf(),
            final(self).reliable() == old(self).reliable(),
            final(self).spec_config() == old(self).spec_config(),
            final(self)@.key == old(self)@.key,
            final(self)@.pending == old(self)@.pending,
            final(self)@.roots() == old(self)@.roots(),
            store_clean(old(self)@.objects, old(self)@.key) ==> store_clean(
                final(self)@.objects,
                final(self)@.key,
            ),
            match r {
                Ok(n) => {
                    &&& !old(self)@.objects.contains_key((FileType::Index, n))
                    &&& final(self)@.objects.contains_key((FileType::Index, n))
                    &&& final(self)@.objects == old(self)@.objects.insert(
                        (FileType::Index, n),
                        final(self)@.objects[(FileType::Index, n)],
                    )
                    &&& final(self)@.index == live@
                    &&& placed(old(self)@.objects, live@) ==> placed(
                        final(self)@.objects,
                        final(self)@.index,
                    )
                    &&& mirrors(final(self)@, n)
                    &&& file_entries(
                        final(self)@.key,
                        final(self)@.objects[(FileType::Index, n)],
                    ) is Some
                    &&& forall|id: Id| #[trigger]
                        final(self)@.index.contains_key(id) ==> final(self)@.world()[id] == old(self)@.world()[id]
                    &&& complete(final(self)@.world(), final(self)@.roots())
                    &&& closed(final(self)@.world())
                    &&& rooted(final(self)@.stored(), final(self)@.roots())
                    &&& sound(old(self)@.world()) ==> sound(final(self)@.world())
                    &&& forall|id: Id|
                        reachable(final(self)@.world(), final(self)@.roots(), id) <==> reachable(
                            old(self)@.world(),
                            old(self)@.roots(),
                            id,
                        )
                },
                Err(e) => {
                    &&& final(self)@ == old(self)@
                    &&& e.kind == ErrorKind::Invalid || e.kind == ErrorKind::Entropy || e.kind
                        == ErrorKind::Conflict || e.kind == ErrorKind::BackendTransient
                    &&& e.kind == ErrorKind::Invalid <==> 89 * live@.dom().len() > MAX_MESSAGE
                    &&& e.kind == ErrorKind::BackendTransient ==> !old(self).reliable()
                },
            },
    {
        let ghost v0 = self@;
        match self.write_index(live) {
            Ok(n) => {
                proof {
                    lemma_committed(v0, self@, n, self@.objects[(FileType::Index, n)]);
                    if placed(v0.objects, self@.index) {
                        lemma_placed_more(v0.objects, self@.objects, self@.index);
                    }
                }
                Ok(n)
            },
            Err(e) => Err(e),
        }
    }

    /// Removes the index files of the list, except `keep`. A file that is
    /// gone already is passed over.
    pub fn drop_indexes(&mut self, files: &Vec<Id>, keep: &Id) -> (r: Result<(), Error>)
        requires
            old(self).wf(),
            old(self)@.pending == Map::<Id, Pending>::empty(),
            mirrors(old(self)@, *keep),
            old(self)@.objects.contains_key((FileType::Index, *keep)),
        ensures
            final(self).wf(),
            final(self).reliable() == old(self).reliable(),
            final(self).spec_config() == old(self).spec_config(),
            final(self)@ == (RepoView { objects: final(self)@.objects, ..old(self)@ }),
            indexes_removed(old(self)@.objects, final(self)@.objects, *keep),
            mirrors(final(self)@, *keep),
            placed(old(self)@.objects, old(self)@.index) ==> placed(
                final(self)@.objects,
                final(self)@.index,
            ),
            final(self)@.world() == old(self)@.world(),
            final(self)@.roots() == old(self)@.roots(),
            store_clean(old(self)@.objects, old(self)@.key) && closed(old(self)@.world())
                && rooted(old(self)@.stored(), old(self)@.roots()) ==> store_clean(
                final(self)@.objects,
                final(self)@.key,
            ),
            match r {
                Ok(()) => forall|f: Id|
                    files@.contains(f) && f != *keep ==> !final(self)@.objects.contains_key(
                        (FileType::Index, f),
                    ),
                Err(e) => e.kind == ErrorKind::BackendTransient && !old(self).reliable(),
            },
    {
        let ghost base = self@;
        let mut i: usize = 0;
        proof {
            lemma_indexes_dropped(base, self@, *keep);
            if placed(base.objects, base.index) {
                lemma_placed_less(base.objects, self@.objects, base.index, Seq::<Id>::empty());
            }
        }
        while i < files.len()
            invariant
                i <= files@.len(),
                self.wf(),
                self.reliable() == old(self).reliable(),
                self.spec_config() == old(self).spec_config(),
                base == old(self)@,
                base.pending == Map::<Id, Pending>::empty(),
                mirrors(base, *keep),
                base.objects.contains_key((FileType::Index, *keep)),
                self@ == (RepoView { objects: self@.objects, ..base }),
                indexes_removed(base.objects, self@.objects, *keep),
                forall|j: int|
                    0 <= j < i && files@[j] != *keep ==> !self@.objects.contains_key(
                        (FileType::Index, #[trigger] files@[j]),
                    ),
            decreases files@.len() - i,
        {
            let f = files[i];
            if !f.same(keep) {
                match self.backend.remove(FileType::Index, &f) {
                    Ok(()) => {},
                    Err(e) => {
                        if e.kind != ErrorKind::NotFound {
                            proof {
                                lemma_indexes_dropped(base, self@, *keep);
            if placed(base.objects, base.index) {
                lemma_placed_less(base.objects, self@.objects, base.index, Seq::<Id>::empty());
            }
                            }
                            return Err(Error::at(ErrorKind::BackendTransient, FileType::Index, f));
                        }
                    },
                }
                proof {
                    lemma_indexes_dropped(base, self@, *keep);
            if placed(base.objects, base.index) {
                lemma_placed_less(base.objects, self@.objects, base.index, Seq::<Id>::empty());
            }
                }
            }
            i += 1;
        }
        proof {
            lemma_indexes_dropped(base, self@, *keep);
            if placed(base.objects, base.index) {
                lemma_placed_less(base.objects, self@.objects, base.index, Seq::<Id>::empty());
            }
            assert forall|f: Id|
                files@.contains(f) && f != *keep implies !self@.objects.contains_key(
                (FileType::Index, f),
            ) by {
                let j = choose|j: int| 0 <= j < files@.len() && files@[j] == f;
                assert(!self@.objects.contains_key((FileType::Index, files@[j])));
            }
        }
        Ok(())
    }

    /// Removes the packs of the list. No blob of the index may lie in one
    /// of them. A pack that is gone already is passed over.
    pub fn drop_packs(&mut self, packs: &Vec<Id>) -> (r: Result<(), Error>)
        requires
            old(self).wf(),
            old(self)@.pending == Map::<Id, Pending>::empty(),
            exact(old(self)@),
            forall|id: Id| #[trigger]
                old(self)@.index.contains_key(id) ==> !packs@.contains(old(self)@.index[id].pack),
        ensures
            final(self).wf(),
            final(self).reliable() == old(self).reliable(),
            final(self).spec_config() == old(self).spec_config(),
            final(self)@ == (RepoView { objects: final(self)@.objects, ..old(self)@ }),
            packs_removed(old(self)@.objects, final(self)@.objects),
            forall|k: (FileType, Id)| #[trigger]
                old(self)@.objects.contains_key(k) && !final(self)@.objects.contains_key(k)
                    ==> packs@.contains(k.1),
            exact(final(self)@),
            placed(old(self)@.objects, old(self)@.index) ==> placed(
                final(self)@.objects,
                final(self)@.index,
            ),
            final(self)@.world() == old(self)@.world(),
            final(self)@.roots() == old(self)@.roots(),
            store_clean(old(self)@.objects, old(self)@.key) ==> store_clean(
                final(self)@.objects,
                final(self)@.key,
            ),
            match r {
                Ok(()) => forall|p: Id|
                    packs@.contains(p) ==> !final(self)@.objects.contains_key((FileType::Pack, p)),
                Err(e) => e.kind == ErrorKind::BackendTransient && !old(self).reliable(),
            },
    {
        let ghost base = self@;
        let mut i: usize = 0;
        proof {
            lemma_packs_dropped(base, self@);
        }
        while i < packs.len()
            invariant
                i <= packs@.len(),
                self.wf(),
                self.reliable() == old(self).reliable(),
                self.spec_config() == old(self).spec_config(),
                base == old(self)@,
                base.pending == Map::<Id, Pending>::empty(),
                exact(base),
                forall|id: Id| #[trigger]
                    base.index.contains_key(id) ==> !packs@.contains(base.index[id].pack),
                self@ == (RepoView { objects: self@.objects, ..base }),
                packs_removed(base.objects, self@.objects),
                forall|k: (FileType, Id)| #[trigger]
                    base.objects.contains_key(k) && !self@.objects.contains_key(k)
                        ==> packs@.contains(k.1),
                forall|j: int|
                    0 <= j < i ==> !self@.objects.contains_key(
                        (FileType::Pack, #[trigger] packs@[j]),
                    ),
            decreases packs@.len() - i,
        {
            let p = packs[i];
            assert(packs@.contains(p));
            match self.backend.remove(FileType::Pack, &p) {
                Ok(()) => {},
                Err(e) => {
                    if e.kind != ErrorKind::NotFound {
                        proof {
                            Self::lemma_drop_packs_step(base, self@, packs@);
                        }
                        return Err(Error::at(ErrorKind::BackendTransient, FileType::Pack, p));
                    }
                },
            }
            proof {
                Self::lemma_drop_packs_step(base, self@, packs@);
            }
            i += 1;
        }
        proof {
            Self::lemma_drop_packs_step(base, self@, packs@);
            assert forall|p: Id| packs@.contains(p) implies !self@.objects.contains_key(
                (FileType::Pack, p),
            ) by {
                let j = choose|j: int| 0 <= j < packs@.len() && packs@[j] == p;
                assert(!self@.objects.contains_key((FileType::Pack, packs@[j])));
            }
        }
        Ok(())
    }

    proof fn lemma_drop_packs_step(base: RepoView, now: RepoView, packs: Seq<Id>)
        requires
            base.pending == Map::<Id, Pending>::empty(),
            exact(base),
            forall|id: Id| #[trigger]
                base.index.contains_key(id) ==> !packs.contains(base.index[id].pack),
            now == (RepoView { objects: now.objects, ..base }),
            packs_removed(base.objects, now.objects),
            forall|k: (FileType, Id)| #[trigger]
                base.objects.contains_key(k) && !now.objects.contains_key(k) ==> packs.contains(
                    k.1,
                ),
        ensures
            exact(now),
            now.backed(),
            now.world() == base.world(),
            now.stored() == base.stored(),
            now.roots() == base.roots(),
            now.coherent(),
            store_clean(base.objects, base.key) ==> store_clean(now.objects, now.key),
            placed(base.objects, base.index) ==> placed(now.objects, now.index),
    {
        if placed(base.objects, base.index) {
            lemma_placed_less(base.objects, now.objects, base.index, packs);
        }
        assert forall|id: Id| #[trigger] base.index.contains_key(id) implies now.objects.contains_key(
            (FileType::Pack, base.index[id].pack),
        ) || !base.objects.contains_key((FileType::Pack, base.index[id].pack)) by {
            let k = (FileType::Pack, base.index[id].pack);
            if base.objects.contains_key(k) && !now.objects.contains_key(k) {
                assert(packs.contains(k.1));
            }
        }
        lemma_packs_dropped(base, now);
    }

    /// The packs that the plan does not keep.
    pub fn doomed(plan: &Plan) -> (packs: Vec<Id>)
        ensures
            forall|p: Id| #[trigger]
                packs@.contains(p) <==> exists|i: int|
                    0 <= i < plan.packs@.len() && (#[trigger] plan.packs@[i]).pack == p
                        && plan.packs@[i].action != PackAction::Keep,
    {
        let mut packs: Vec<Id> = Vec::new();
        let mut i: usize = 0;
        while i < plan.packs.len()
            invariant
                i <= plan.packs@.len(),
                forall|p: Id| #[trigger]
                    packs@.contains(p) <==> exists|j: int|
                        0 <= j < i && (#[trigger] plan.packs@[j]).pack == p
                            && plan.packs@[j].action != PackAction::Keep,
            decreases plan.packs@.len() - i,
        {
            let pp = plan.packs[i];
            let ghost p0 = packs@;
            let keep = match pp.action {
                PackAction::Keep => true,
                _ => false,
            };
            if !keep {
                packs.push(pp.pack);
                proof {
                    lemma_push_contains(p0, pp.pack);
                    assert(packs@ == p0.push(pp.pack));
                }
            }
            proof {
                assert forall|p: Id| #[trigger]
                    packs@.contains(p) <==> exists|j: int|
                        0 <= j < i + 1 && (#[trigger] plan.packs@[j]).pack == p
                            && plan.packs@[j].action != PackAction::Keep by {
                    if !keep {
                        assert(p0.push(pp.pack).contains(p) <==> p0.contains(p) || p == pp.pack);
                    }
                    if p0.contains(p) {
                        let j = choose|j: int|
                            0 <= j < i && (#[trigger] plan.packs@[j]).pack == p
                                && plan.packs@[j].action != PackAction::Keep;
                        assert(0 <= j < i + 1);
                    }
                    if !keep && p == pp.pack {
                        assert(plan.packs@[i as int].pack == p);
                    }
                    if exists|j: int|
                        0 <= j < i + 1 && (#[trigger] plan.packs@[j]).pack == p
                            && plan.packs@[j].action != PackAction::Keep {
                        let j = choose|j: int|
                            0 <= j < i + 1 && (#[trigger] plan.packs@[j]).pack == p
                                && plan.packs@[j].action != PackAction::Keep;
                        if j < i {
                            assert(p0.contains(p));
                        }
                    }
                }
            }
            i += 1;
        }
        packs
    }

    /// Prunes the repository: removes from the index every blob that no
    /// snapshot reaches, copies what is reachable out of the packs of
    /// which less than `threshold` percent is reachable, and removes those
    /// packs and the packs in which nothing reachable lies. The index is
    /// committed before the first pack is removed. Where the index files
    /// agree with the index in memory, the index is afterwards what it
    /// was, less what no snapshot reaches. Fails with `Invalid` where blobs
    /// wait to be packed; `stopped` says what the other errors mean.
    /// Whenever a prune stops, at its end or on an error, a store that
    /// was clean is clean, and the configuration, the key records and the
    /// snapshots are what they were. After a prune every index file can
    /// be read, and every place of the index lies inside a pack that is
    /// there.
    #[verifier::spinoff_prover]
    #[verifier::rlimit(30)]
    pub fn prune(&mut self, threshold: u8) -> (r: Result<PruneSummary, Error>)
        requires
            old(self).wf(),
        ensures
            final(self).wf(),
            final(self).reliable() == old(self).reliable(),
            final(self).spec_config() == old(self).spec_config(),
            final(self)@.key == old(self)@.key,
            final(self)@.pending == old(self)@.pending,
            final(self)@.roots() == old(self)@.roots(),
            others_same(old(self)@.objects, final(self)@.objects),
            !bad_index(old(self)@.objects, old(self)@.key) ==> !bad_index(
                final(self)@.objects,
                final(self)@.key,
            ),
            store_clean(old(self)@.objects, old(self)@.key) ==> store_clean(
                final(self)@.objects,
                final(self)@.key,
            ),
            match r {
                Ok(s) => {
                    &&& exact(final(self)@)
                    &&& !bad_index(final(self)@.objects, final(self)@.key)
                    &&& placed(final(self)@.objects, final(self)@.index)
                    &&& forall|id: Id| #[trigger]
                        final(self)@.index.contains_key(id) ==> segment(
                            final(self)@.objects,
                            final(self)@.index[id],
                        ) is Some
                    &&& complete(final(self)@.world(), final(self)@.roots())
                    &&& closed(final(self)@.world())
                    &&& rooted(final(self)@.stored(), final(self)@.roots())
                    &&& forall|id: Id|
                        final(self)@.index.contains_key(id) <==> reachable(
                            final(self)@.world(),
                            final(self)@.roots(),
                            id,
                        )
                    &&& old(self)@.healthy() ==> final(self)@.healthy()
                    &&& exists|v: RepoView| #[trigger]
                        reread(old(self)@, v) && kept_of(v, final(self)@)
                    &&& old(self)@.coherent() ==> {
                        &&& forall|id: Id|
                            final(self)@.index.contains_key(id) <==> reachable(
                                old(self)@.world(),
                                old(self)@.roots(),
                                id,
                            )
                        &&& forall|id: Id| #[trigger]
                            final(self)@.index.contains_key(id) ==> final(self)@.world()[id] == old(self)@.world()[id]
                    }
                    &&& s.blobs == final(self)@.index.dom().len()
                    &&& forall|sid: Id| #[trigger]
                        final(self)@.objects.contains_key((FileType::Snapshot, sid))
                            ==> snapshot_in(final(self)@.objects, final(self)@.key, sid) is Some
                    &&& forall|p: Id|
                        (exists|i: int| 0 <= i < s.packs@.len() && (#[trigger] s.packs@[i]).pack == p)
                            <==> old(self)@.objects.contains_key((FileType::Pack, p))
                    &&& forall|i: int|
                        0 <= i < s.packs@.len() ==> {
                            &&& (#[trigger] s.packs@[i]).size == old(self)@.objects[(
                                FileType::Pack,
                                s.packs@[i].pack,
                            )].len()
                            &&& s.packs@[i].action == spec_classify(
                                s.packs@[i].live.blobs,
                                s.packs@[i].live.bytes,
                                s.packs@[i].size,
                                threshold,
                            )
                            &&& s.packs@[i].action == PackAction::Keep
                                <==> final(self)@.objects.contains_key(
                                (FileType::Pack, s.packs@[i].pack),
                            )
                            &&& s.packs@[i].action == PackAction::Keep ==> final(self)@.objects[(
                                FileType::Pack,
                                s.packs@[i].pack,
                            )] == old(self)@.objects[(FileType::Pack, s.packs@[i].pack)]
                        }
                },
                Err(e) => {
                    &&& old(self)@.pending != Map::<Id, Pending>::empty() ==> e.kind
                        == ErrorKind::Invalid && final(self)@ == old(self)@
                    &&& e.kind == ErrorKind::Invalid || e.kind == ErrorKind::Corrupt || e.kind
                        == ErrorKind::NotFound || e.kind == ErrorKind::Entropy || e.kind
                        == ErrorKind::Conflict || e.kind == ErrorKind::BackendTransient
                    &&& stopped(old(self)@, e.kind)
                    &&& e.kind == ErrorKind::BackendTransient ==> !old(self).reliable()
                },
            },
    {
        proof {
            lemma_others_same(self@.objects);
        }
        if self.queue.len() > 0 {
            proof {
                assert(self.queued@.contains_key(self.queue@[0].id));
                assert(self@.pending.contains_key(self.queue@[0].id));
            }
            proof {
                lemma_stopped_early(self@, ErrorKind::Invalid);
            }
            return Err(Error::bare(ErrorKind::Invalid));
        }
        assert(self@.pending =~= Map::<Id, Pending>::empty());
        let ghost v0 = self@;
        match self.reload_index() {
            Ok(()) => {},
            Err(e) => {
                proof {
                    lemma_stopped_early(v0, e.kind);
                }
                return Err(e);
            },
        }
        let ghost v1 = self@;
        proof {
            assert(v1.world() =~= v1.stored());
            assert(v0.world() =~= v0.stored());
            if v0.coherent() {
                crate::store::law_reopen(v0, v1);
            }
        }
        assert(reread(v0, v1));
        let plan = match self.plan_prune(threshold) {
            Ok(p) => p,
            Err(e) => {
                proof {
                    lemma_stopped_reread(v0, v1, e.kind);
                }
                return Err(e);
            },
        };
        assert(ready(v1, plan));
        let doomed = Self::doomed(&plan);
        let staged = self.stage(&plan);
        proof {
            lemma_step_added(v0.objects, v1.objects, self@.objects, v0.key);
        }
        let live = match staged {
            Ok(l) => l,
            Err(e) => {
                proof {
                    lemma_stopped_reread(v0, v1, e.kind);
                }
                return Err(e);
            },
        };
        let ghost v2 = self@;
        let blobs = live.len();
        let ghost reached = live@.dom();
        proof {
            assert(reach_set(v1) =~= reached);
            assert(v2.world() =~= v2.stored());
            assert forall|id: Id| #[trigger] live@.contains_key(id) implies !doomed@.contains(
                live@[id].pack,
            ) by {
                if doomed@.contains(live@[id].pack) {
                    let i = choose|i: int|
                        0 <= i < plan.packs@.len() && (#[trigger] plan.packs@[i]).pack
                            == live@[id].pack && plan.packs@[i].action != PackAction::Keep;
                }
            }
        }
        let n = match self.commit_index(live) {
            Ok(n) => n,
            Err(e) => {
                proof {
                    lemma_stopped_reread(v0, v1, e.kind);
                }
                return Err(e);
            },
        };
        let ghost v3 = self@;
        proof {
            assert(v3.world() =~= v3.stored());
            lemma_step_index(v0.objects, v2.objects, v3.objects, n, v0.key);
        }
        let dropped = self.drop_indexes(&plan.files, &n);
        proof {
            lemma_step_removed(v0.objects, v3.objects, self@.objects, v0.key);
        }
        match dropped {
            Ok(()) => {},
            Err(e) => {
                proof {
                    lemma_stopped_other(v0, e.kind);
                }
                return Err(e);
            },
        }
        let ghost v4 = self@;
        proof {
            assert forall|e: Entry| #[trigger]
                indexed(v4.objects, v4.key, e) <==> v4.index.contains_key(e.id) && v4.index[e.id]
                    == e.loc by {
                if indexed(v4.objects, v4.key, e) {
                    let f = choose|f: Id| #[trigger] lists(v4.objects, v4.key, f, e);
                    if f != n {
                        assert(v3.objects.contains_key((FileType::Index, f)));
                        assert(v2.objects.contains_key((FileType::Index, f)));
                        assert(v1.objects.contains_key((FileType::Index, f)));
                        assert(plan.files@.contains(f));
                    }
                }
                if v4.index.contains_key(e.id) && v4.index[e.id] == e.loc {
                    assert(lists(v4.objects, v4.key, n, e));
                }
            }
        }
        let removed = self.drop_packs(&doomed);
        proof {
            lemma_step_removed(v0.objects, v4.objects, self@.objects, v0.key);
        }
        match removed {
            Ok(()) => {},
            Err(e) => {
                proof {
                    lemma_stopped_other(v0, e.kind);
                }
                return Err(e);
            },
        }
        proof {
            let v5 = self@;
            assert(forall|id: Id| #[trigger]
                v5.index.contains_key(id) ==> segment(v5.objects, v5.index[id]) is Some) by {
                reveal(placed);
            }
            assert(kept_of(v1, v5)) by {
                assert forall|id: Id| #[trigger] v5.index.contains_key(id) implies v5.world()[id]
                    == v1.world()[id] by {
                    assert(v3.index.contains_key(id));
                    assert(v4.index.contains_key(id));
                }
            }
            lemma_exact(v5);
            assert(v5.world() =~= v5.stored());
            self.index.lemma_keys();
            assert forall|sid: Id| #[trigger]
                v5.objects.contains_key((FileType::Snapshot, sid)) implies snapshot_in(
                v5.objects,
                v5.key,
                sid,
            ) is Some by {
                let k = (FileType::Snapshot, sid);
                assert(v4.objects.contains_key(k) && v5.objects[k] == v4.objects[k]);
                assert(v3.objects.contains_key(k) && v4.objects[k] == v3.objects[k]);
                assert(v2.objects.contains_key(k) && v3.objects[k] == v2.objects[k]);
                assert(v1.objects.contains_key(k) && v2.objects[k] == v1.objects[k]);
                assert(snapshot_in(v1.objects, v1.key, sid) is Some);
            }
            assert forall|i: int| 0 <= i < plan.packs@.len() implies {
                &&& (#[trigger] plan.packs@[i]).action == PackAction::Keep
                    <==> v5.objects.contains_key((FileType::Pack, plan.packs@[i].pack))
                &&& plan.packs@[i].action == PackAction::Keep ==> v5.objects[(
                    FileType::Pack,
                    plan.packs@[i].pack,
                )] == v0.objects[(FileType::Pack, plan.packs@[i].pack)]
            } by {
                let k = (FileType::Pack, plan.packs@[i].pack);
                assert(v1.objects.contains_key(k));
                assert(v2.objects.contains_key(k) && v2.objects[k] == v1.objects[k]);
                assert(v3.objects.contains_key(k) && v3.objects[k] == v2.objects[k]);
                assert(v4.objects.contains_key(k) && v4.objects[k] == v3.objects[k]);
                if plan.packs@[i].action == PackAction::Keep {
                    if !v5.objects.contains_key(k) {
                        assert(doomed@.contains(k.1));
                        let j = choose|j: int|
                            0 <= j < plan.packs@.len() && (#[trigger] plan.packs@[j]).pack == k.1
                                && plan.packs@[j].action != PackAction::Keep;
                        assert(plan.actions@[plan.packs@[j].pack] == plan.packs@[j].action);
                        assert(plan.actions@[plan.packs@[i].pack] == plan.packs@[i].action);
                    }
                } else {
                    assert(doomed@.contains(k.1));
                }
            }
        }
        Ok(PruneSummary { packs: plan.packs, blobs })
    }
}

} // verus!
