//! Saving and loading blobs, file contents and trees.

use crate::backend::Backend;
use crate::blob::{BlobKind, open_blob};
use crate::chunker::{concat, lemma_concat_push, next_cut, pieces};
use crate::crypto::{append, copy_range, MAX_MESSAGE};
use crate::error::{Error, ErrorKind, FileType};
use crate::id::{digest, Id};
use crate::repo::{MAX_QUEUED, Repository};
use crate::store::{
    lemma_blob_added, lemma_carries_trans, lemma_grown_trans, lemma_same, Pending, RepoView,
};
use crate::tree::{
    NodeView,
    decode_tree, encode_tree, is_sorted, Node, node_names, node_views, nodes_refs, parse_tree,
    sorted_by_name, tree_bytes, tree_refs,
};
use crate::world::Blob;
use vstd::prelude::*;

verus! {

/// What saving a file's content did: each chunk has its address in `ids`,
/// the repository has a blob under each of them, and every blob that is
/// new is a data blob that holds one of the chunks.
pub open spec fn file_saved(old: RepoView, new: RepoView, parts: Seq<Seq<u8>>, ids: Seq<Id>) -> bool {
    &&& ids.len() == parts.len()
    &&& forall|k: int|
        0 <= k < ids.len() ==> (#[trigger] ids[k])@ == digest(parts[k]) && new.world().contains_key(
            ids[k],
        )
    &&& forall|x: Id|
        new.world().contains_key(x) && !old.world().contains_key(x) ==> exists|k: int|
            0 <= k < ids.len() && #[trigger] ids[k] == x && new.world()[x] == (Blob {
                kind: BlobKind::Data,
                content: Some(parts[k]),
            })
}

/// The repository has a blob under the address of `data`.
pub open spec fn known(v: RepoView, data: Seq<u8>) -> bool {
    exists|x: Id| #[trigger] v.world().contains_key(x) && x@ == digest(data)
}

/// Nothing waits to be packed, and the repository has a blob under the
/// address of each part: saving the parts has nothing to do.
pub open spec fn all_known(v: RepoView, parts: Seq<Seq<u8>>) -> bool {
    &&& v.pending == Map::<Id, Pending>::empty()
    &&& forall|k: int| 0 <= k < parts.len() ==> known(v, #[trigger] parts[k])
}

/// The nodes can be saved as a tree: they stand in the strict order of
/// their names, the repository has every blob that they name, and their
/// bytes fit into one blob.
pub open spec fn tree_fits(v: RepoView, nodes: Seq<NodeView>) -> bool {
    &&& sorted_by_name(nodes)
    &&& forall|id: Id| nodes_refs(nodes).contains(id) ==> v.world().contains_key(id)
    &&& tree_bytes(nodes).len() < MAX_MESSAGE
}

/// The contents of the blobs with the given addresses, in order.
pub open spec fn plains(v: RepoView, ids: Seq<Id>) -> Seq<Seq<u8>> {
    Seq::new(ids.len(), |k: int| v.plain(ids[k]).unwrap())
}

impl<B: Backend> Repository<B> {
    /// Nothing was written since `before`: the objects and the index are
    /// the same, and at most `count` blobs of `len` bytes in all have
    /// joined the queue.
    pub open spec fn written_nothing(&self, before: &Self, count: nat, len: nat) -> bool {
        &&& self@.objects == before@.objects
        &&& self@.index == before@.index
        &&& self.pack_limit == before.pack_limit
        &&& self.queued_bytes <= before.queued_bytes + len
        &&& self.queue@.len() <= before.queue@.len() + count
    }

    /// Saves a blob: queues it unless the repository has a blob with its
    /// address, and writes a pack where enough waits. Fails with `Invalid`
    /// exactly where the blob has `MAX_MESSAGE` bytes or more; then
    /// nothing changes. A tree is saved only where the repository has
    /// every blob that it names. Where the queue has room for the blob
    /// and stays short of a pack's size, nothing is written and the call
    /// succeeds; after a success either less than a pack's size waits or
    /// nothing does.
    pub fn save_blob(&mut self, kind: BlobKind, data: Vec<u8>) -> (r: Result<Id, Error>)
        requires
            old(self).wf(),
            kind == BlobKind::Tree ==> parse_tree(data@) is Some && forall|r: Id|
                tree_refs(data@).unwrap().contains(r) ==> old(self)@.world().contains_key(r),
        ensures
            final(self).wf(),
            final(self).reliable() == old(self).reliable(),
            final(self).spec_config() == old(self).spec_config(),
            final(self)@.key == old(self)@.key,
            final(self)@.grown_from(old(self)@),
            final(self)@.roots() == old(self)@.roots(),
            final(self)@.carries(old(self)@),
            old(self)@.healthy() ==> final(self)@.healthy(),
            forall|x: Id|
                final(self)@.world().contains_key(x) ==> old(self)@.world().contains_key(x) || x@
                    == digest(data@),
            forall|x: Id|
                final(self)@.world().contains_key(x) && !old(self)@.world().contains_key(x)
                    ==> final(self)@.world()[x] == (Blob { kind, content: Some(data@) }),
            all_known(old(self)@, seq![data@]) && data@.len() < MAX_MESSAGE ==> r is Ok
                && final(self)@ == old(self)@,
            data@.len() < MAX_MESSAGE && old(self).room_for(1, data@.len()) ==> r is Ok
                && final(self).written_nothing(old(self), 1, data@.len()),
            r is Ok ==> final(self).queued_bytes < final(self).pack_limit || final(self)@.pending
                == Map::<Id, Pending>::empty(),
            match r {
                Ok(id) => {
                    &&& id@ == digest(data@)
                    &&& data@.len() < MAX_MESSAGE
                    &&& final(self)@.world().contains_key(id)
                },
                Err(e) => {
                    &&& e.kind == ErrorKind::Invalid <==> data@.len() >= MAX_MESSAGE
                    &&& e.kind == ErrorKind::Invalid ==> final(self)@ == old(self)@
                    &&& e.kind == ErrorKind::Invalid || e.kind == ErrorKind::Entropy || e.kind
                        == ErrorKind::Conflict || e.kind == ErrorKind::BackendTransient
                    &&& e.kind == ErrorKind::BackendTransient ==> !old(self).reliable()
                },
            },
    {
        let ghost v0 = self@;
        proof {
            lemma_same(v0);
        }
        if data.len() >= MAX_MESSAGE {
            return Err(Error::bare(ErrorKind::Invalid));
        }
        if self.queue.len() >= MAX_QUEUED {
            match self.flush() {
                Ok(()) => {},
                Err(e) => {
                    return Err(e);
                },
            }
            proof {
                if self.queue@.len() > 0 {
                    assert(self.queued@.contains_key(self.queue@[0].id));
                    assert(self@.pending.contains_key(self.queue@[0].id));
                }
            }
        }
        let ghost v1 = self@;
        let ghost dv = data@;
        let id = self.add_blob(kind, data);
        let ghost v2 = self@;
        proof {
            if all_known(v0, seq![dv]) {
                assert(seq![dv][0] == dv);
                assert(known(v0, dv));
                let x = choose|x: Id| #[trigger] v0.world().contains_key(x) && x@ == digest(dv);
                crate::id::lemma_id_ext(x, id);
                assert(v1 == v0);
                assert(v2 == v0);
            }
        }
        proof {
            if !v1.world().contains_key(id) {
                lemma_blob_added(v1, v2, id, kind, dv);
            } else {
                lemma_same(v1);
            }
            lemma_carries_trans(v0, v1, v2);
            lemma_grown_trans(v0, v1, v2);
            assert forall|x: Id| v2.world().contains_key(x) implies v0.world().contains_key(x)
                || x@ == digest(dv) by {
                if x != id {
                    assert(v1.world().contains_key(x));
                }
            }
            assert forall|x: Id|
                v2.world().contains_key(x) && !v0.world().contains_key(x) implies v2.world()[x]
                == (Blob { kind, content: Some(dv) }) by {
                if x != id {
                    assert(v1.world().contains_key(x));
                }
            }
        }
        if self.queued_bytes >= self.pack_limit {
            let r = self.flush();
            proof {
                let v3 = self@;
                lemma_carries_trans(v0, v2, v3);
                lemma_grown_trans(v0, v2, v3);
                assert forall|x: Id|
                    v3.world().contains_key(x) && !v0.world().contains_key(x) implies v3.world()[x]
                    == (Blob { kind, content: Some(dv) }) by {
                    assert(v2.world().contains_key(x));
                    assert(v2.world()[x].content is Some);
                }
            }
            match r {
                Ok(()) => {},
                Err(e) => {
                    return Err(e);
                },
            }
        }
        Ok(id)
    }

    /// Saves one data blob.
    pub fn save_data(&mut self, data: &[u8]) -> (r: Result<Id, Error>)
        requires
            old(self).wf(),
        ensures
            final(self).wf(),
            final(self).reliable() == old(self).reliable(),
            final(self).spec_config() == old(self).spec_config(),
            final(self)@.key == old(self)@.key,
            final(self)@.grown_from(old(self)@),
            final(self)@.roots() == old(self)@.roots(),
            final(self)@.carries(old(self)@),
            old(self)@.healthy() ==> final(self)@.healthy(),
            forall|x: Id|
                final(self)@.world().contains_key(x) ==> old(self)@.world().contains_key(x) || x@
                    == digest(data@),
            forall|x: Id|
                final(self)@.world().contains_key(x) && !old(self)@.world().contains_key(x)
                    ==> final(self)@.world()[x] == (Blob {
                    kind: BlobKind::Data,
                    content: Some(data@),
                }),
            all_known(old(self)@, seq![data@]) && data@.len() < MAX_MESSAGE ==> r is Ok
                && final(self)@ == old(self)@,
            data@.len() < MAX_MESSAGE && old(self).room_for(1, data@.len()) ==> r is Ok
                && final(self).written_nothing(old(self), 1, data@.len()),
            r is Ok ==> final(self).queued_bytes < final(self).pack_limit || final(self)@.pending
                == Map::<Id, Pending>::empty(),
            match r {
                Ok(id) => {
                    &&& id@ == digest(data@)
                    &&& data@.len() < MAX_MESSAGE
                    &&& final(self)@.world().contains_key(id)
                },
                Err(e) => {
                    &&& e.kind == ErrorKind::Invalid <==> data@.len() >= MAX_MESSAGE
                    &&& e.kind == ErrorKind::Invalid ==> final(self)@ == old(self)@
                    &&& e.kind == ErrorKind::Invalid || e.kind == ErrorKind::Entropy || e.kind
                        == ErrorKind::Conflict || e.kind == ErrorKind::BackendTransient
                    &&& e.kind == ErrorKind::BackendTransient ==> !old(self).reliable()
                },
            },
    {
        let copy = copy_range(data, 0, data.len());
        assert(copy@ =~= data@);
        assert(copy@ == data@);
        self.save_blob(BlobKind::Data, copy)
    }

    /// Saves the content of a file: splits it into chunks and saves each
    /// chunk that the repository does not have. Gives the addresses of
    /// the chunks in order.
    pub fn save_file(&mut self, data: &[u8]) -> (r: Result<Vec<Id>, Error>)
        requires
            old(self).wf(),
        ensures
            final(self).wf(),
            final(self).reliable() == old(self).reliable(),
            final(self).spec_config() == old(self).spec_config(),
            final(self)@.key == old(self)@.key,
            final(self)@.grown_from(old(self)@),
            final(self)@.roots() == old(self)@.roots(),
            final(self)@.carries(old(self)@),
            old(self)@.healthy() ==> final(self)@.healthy(),
            all_known(old(self)@, pieces(data@, 0, old(self).spec_config().chunker)) ==> r is Ok
                && final(self)@ == old(self)@,
            old(self).room_for(
                pieces(data@, 0, old(self).spec_config().chunker).len(),
                data@.len(),
            ) ==> r is Ok && final(self).written_nothing(
                old(self),
                pieces(data@, 0, old(self).spec_config().chunker).len(),
                data@.len(),
            ),
            match r {
                Ok(ids) => file_saved(
                    old(self)@,
                    final(self)@,
                    pieces(data@, 0, old(self).spec_config().chunker),
                    ids@,
                ),
                Err(e) => {
                    &&& e.kind == ErrorKind::Entropy || e.kind == ErrorKind::Conflict || e.kind
                        == ErrorKind::BackendTransient
                    &&& e.kind == ErrorKind::BackendTransient ==> !old(self).reliable()
                },
            },
    {
        let ghost v0 = self@;
        let params = self.config.chunker;
        let ghost all = pieces(data@, 0, params);
        let ghost mut done: Seq<Seq<u8>> = Seq::empty();
        let mut ids: Vec<Id> = Vec::new();
        let mut start: usize = 0;
        proof {
            lemma_same(v0);
            assert(done + pieces(data@, 0, params) =~= all);
        }
        while start < data.len()
            invariant
                start <= data@.len(),
                self.wf(),
                self.reliable() == old(self).reliable(),
                self.spec_config() == old(self).spec_config(),
                params == self.spec_config().chunker,
                v0 == old(self)@,
                self@.key == v0.key,
                self@.grown_from(v0),
                self@.roots() == v0.roots(),
                self@.carries(v0),
                v0.healthy() ==> self@.healthy(),
                all == pieces(data@, 0, params),
                done + pieces(data@, start as int, params) == all,
                file_saved(v0, self@, done, ids@),
                all_known(v0, all) ==> self@ == v0,
                old(self).room_for(all.len(), data@.len()) ==> self.written_nothing(
                    old(self),
                    done.len(),
                    start as nat,
                ),
            decreases data@.len() - start,
        {
            let end = next_cut(data, start, &params);
            let chunk = copy_range(data, start, end);
            let ghost v1 = self@;
            let ghost part = data@.subrange(start as int, end as int);
            let ghost before = ids@;
            assert(chunk@.len() < MAX_MESSAGE);
            proof {
                assert(pieces(data@, start as int, params) == seq![part] + pieces(
                    data@,
                    end as int,
                    params,
                ));
                assert(all[done.len() as int] == part);
                if all_known(v0, all) {
                    assert(known(v0, all[done.len() as int]));
                    assert(all_known(v1, seq![chunk@])) by {
                        assert forall|k: int| 0 <= k < seq![chunk@].len() implies known(
                            v1,
                            #[trigger] seq![chunk@][k],
                        ) by {}
                    }
                }
            }
            match self.save_blob(BlobKind::Data, chunk) {
                Ok(id) => {
                    ids.push(id);
                },
                Err(e) => {
                    proof {
                        lemma_carries_trans(v0, v1, self@);
                        lemma_grown_trans(v0, v1, self@);
                    }
                    return Err(e);
                },
            }
            proof {
                let v2 = self@;
                lemma_carries_trans(v0, v1, v2);
                lemma_grown_trans(v0, v1, v2);
                let more = done.push(part);
                assert(pieces(data@, start as int, params) == seq![part] + pieces(
                    data@,
                    end as int,
                    params,
                ));
                assert(more + pieces(data@, end as int, params) =~= done + (seq![part] + pieces(
                    data@,
                    end as int,
                    params,
                )));
                assert forall|k: int| 0 <= k < ids@.len() implies (#[trigger] ids@[k])@ == digest(
                    more[k],
                ) && v2.world().contains_key(ids@[k]) by {
                    if k < before.len() {
                        assert(ids@[k] == before[k]);
                        assert(v1.world().contains_key(before[k]));
                    }
                }
                assert forall|x: Id|
                    v2.world().contains_key(x) && !v0.world().contains_key(x) implies exists|
                    k: int,
                |
                    0 <= k < ids@.len() && #[trigger] ids@[k] == x && v2.world()[x] == (Blob {
                        kind: BlobKind::Data,
                        content: Some(more[k]),
                    }) by {
                    if v1.world().contains_key(x) {
                        let k = choose|k: int|
                            0 <= k < before.len() && #[trigger] before[k] == x && v1.world()[x]
                                == (Blob { kind: BlobKind::Data, content: Some(done[k]) });
                        assert(ids@[k] == x);
                        assert(v1.world()[x].content is Some);
                        assert(v2.world()[x].kind == v1.world()[x].kind);
                        assert(v2.world()[x].content == v1.world()[x].content);
                    } else {
                        let k = before.len() as int;
                        crate::id::lemma_id_ext(x, ids@[k]);
                        assert(ids@[k] == x);
                    }
                }
                done = more;
            }
            start = end;
        }
        proof {
            assert(pieces(data@, start as int, params) =~= Seq::<Seq<u8>>::empty());
            assert(done + Seq::<Seq<u8>>::empty() =~= done);
        }
        Ok(ids)
    }

    /// Loads the content of a blob. Waiting blobs are served from the
    /// queue, stored ones are read from their pack and decrypted. On a
    /// reliable backend this fails exactly where the repository does not
    /// have the blob's content.
    pub fn load_blob(&self, id: &Id) -> (r: Result<Vec<u8>, Error>)
        requires
            self.wf(),
        ensures
            match r {
                Ok(d) => self@.plain(*id) == Some(d@),
                Err(e) => {
                    &&& e.kind != ErrorKind::BackendTransient ==> self@.plain(*id) is None
                    &&& e.kind == ErrorKind::NotFound || e.kind == ErrorKind::Corrupt || e.kind
                        == ErrorKind::BackendTransient
                    &&& e.kind == ErrorKind::BackendTransient ==> !self.reliable()
                    &&& e.kind == ErrorKind::NotFound ==> !self@.world().contains_key(*id)
                        || !self@.objects.contains_key((FileType::Pack, self@.index[*id].pack))
                },
            },
    {
        match self.queued.get(id) {
            Some(pos) => {
                let q = &self.queue[*pos];
                return Ok(copy_range(q.data.as_slice(), 0, q.data.len()));
            },
            None => {},
        }
        let loc = match self.index.get(id) {
            Some(loc) => *loc,
            None => {
                return Err(Error::bare(ErrorKind::NotFound));
            },
        };
        let stored = match self.backend.read(FileType::Pack, &loc.pack, loc.offset, loc.length) {
            Ok(s) => s,
            Err(e) => {
                return Err(e);
            },
        };
        match open_blob(&self.key, stored.as_slice()) {
            Ok(d) => Ok(d),
            Err(e) => Err(Error::at(ErrorKind::Corrupt, FileType::Pack, loc.pack)),
        }
    }

    /// Loads the content of a file from the addresses of its chunks.
    pub fn load_file(&self, ids: &Vec<Id>) -> (r: Result<Vec<u8>, Error>)
        requires
            self.wf(),
        ensures
            match r {
                Ok(d) => {
                    &&& forall|k: int| 0 <= k < ids@.len() ==> self@.plain(#[trigger] ids@[k]) is Some
                    &&& d@ == concat(plains(self@, ids@))
                },
                Err(e) => {
                    &&& self.reliable() ==> exists|k: int|
                        0 <= k < ids@.len() && self@.plain(#[trigger] ids@[k]) is None
                    &&& e.kind == ErrorKind::NotFound || e.kind == ErrorKind::Corrupt || e.kind
                        == ErrorKind::BackendTransient
                    &&& e.kind == ErrorKind::BackendTransient ==> !self.reliable()
                },
            },
    {
        let mut out: Vec<u8> = Vec::new();
        let mut i: usize = 0;
        let ghost all = plains(self@, ids@);
        assert(all.take(0) =~= Seq::<Seq<u8>>::empty());
        while i < ids.len()
            invariant
                i <= ids@.len(),
                self.wf(),
                all == plains(self@, ids@),
                forall|k: int| 0 <= k < i ==> self@.plain(#[trigger] ids@[k]) is Some,
                out@ == concat(all.take(i as int)),
            decreases ids@.len() - i,
        {
            let part = match self.load_blob(&ids[i]) {
                Ok(p) => p,
                Err(e) => {
                    return Err(e);
                },
            };
            append(&mut out, part.as_slice());
            proof {
                assert(all.take(i + 1) =~= all.take(i as int).push(part@));
                lemma_concat_push(all.take(i as int), part@);
            }
            i += 1;
        }
        assert(all.take(ids@.len() as int) =~= all);
        Ok(out)
    }

    /// Whether the repository has every blob that the nodes name.
    pub fn has_all(&self, nodes: &Vec<Node>) -> (r: bool)
        requires
            self.wf(),
        ensures
            r == (forall|id: Id|
                nodes_refs(node_views(nodes@)).contains(id) ==> self@.world().contains_key(id)),
    {
        let ghost views = node_views(nodes@);
        let mut i: usize = 0;
        while i < nodes.len()
            invariant
                i <= nodes@.len(),
                self.wf(),
                views == node_views(nodes@),
                forall|j: int, id: Id|
                    0 <= j < i && node_names(#[trigger] views[j], id) ==> #[trigger] self@.world().contains_key(
                        id,
                    ),
            decreases nodes@.len() - i,
        {
            let node = &nodes[i];
            assert(views[i as int] == node@);
            match node.subtree {
                Some(t) => {
                    if !self.has(&t) {
                        assert(node_names(views[i as int], t));
                        assert(nodes_refs(views).contains(t));
                        return false;
                    }
                },
                None => {},
            }
            let mut k: usize = 0;
            while k < node.content.len()
                invariant
                    k <= node.content@.len(),
                    self.wf(),
                    i < nodes@.len(),
                    views == node_views(nodes@),
                    views[i as int] == node@,
                    forall|m: int|
                        0 <= m < k ==> self@.world().contains_key(#[trigger] node.content@[m]),
                decreases node.content@.len() - k,
            {
                if !self.has(&node.content[k]) {
                    assert(node@.content.contains(node.content@[k as int]));
                    assert(node_names(views[i as int], node.content@[k as int]));
                    assert(nodes_refs(views).contains(node.content@[k as int]));
                    return false;
                }
                k += 1;
            }
            assert forall|id: Id| node_names(views[i as int], id) implies self@.world().contains_key(
                id,
            ) by {
                if node@.content.contains(id) {
                    let m = choose|m: int| 0 <= m < node@.content.len() && node@.content[m] == id;
                    assert(self@.world().contains_key(node.content@[m]));
                }
            }
            i += 1;
        }
        assert forall|id: Id| nodes_refs(views).contains(id) implies self@.world().contains_key(
            id,
        ) by {
            let j = choose|j: int| 0 <= j < views.len() && node_names(#[trigger] views[j], id);
        }
        true
    }

    /// Saves the tree of a directory. The nodes must stand in the strict
    /// order of their names, else `Invalid`; the repository must have
    /// every blob that they name, else `NotFound`. Equal lists of nodes
    /// always get the same address. A tree that can be saved is saved
    /// with success where the repository has it already and nothing
    /// waits, and where the queue has room for it.
    pub fn save_tree(&mut self, nodes: &Vec<Node>) -> (r: Result<Id, Error>)
        requires
            old(self).wf(),
        ensures
            final(self).wf(),
            final(self).reliable() == old(self).reliable(),
            final(self).spec_config() == old(self).spec_config(),
            final(self)@.key == old(self)@.key,
            final(self)@.grown_from(old(self)@),
            final(self)@.roots() == old(self)@.roots(),
            final(self)@.carries(old(self)@),
            old(self)@.healthy() ==> final(self)@.healthy(),
            forall|x: Id|
                final(self)@.world().contains_key(x) && !old(self)@.world().contains_key(x)
                    ==> final(self)@.world()[x] == (Blob {
                    kind: BlobKind::Tree,
                    content: Some(tree_bytes(node_views(nodes@))),
                }) && x@ == digest(tree_bytes(node_views(nodes@))),
            all_known(old(self)@, seq![tree_bytes(node_views(nodes@))]) && r is Ok
                ==> final(self)@ == old(self)@,
            tree_fits(old(self)@, node_views(nodes@)) && (all_known(
                old(self)@,
                seq![tree_bytes(node_views(nodes@))],
            ) || old(self).room_for(1, tree_bytes(node_views(nodes@)).len())) ==> r is Ok,
            tree_fits(old(self)@, node_views(nodes@)) && old(self).room_for(
                1,
                tree_bytes(node_views(nodes@)).len(),
            ) ==> final(self).written_nothing(old(self), 1, tree_bytes(node_views(nodes@)).len()),
            r is Ok ==> final(self).queued_bytes < final(self).pack_limit || final(self)@.pending
                == Map::<Id, Pending>::empty(),
            match r {
                Ok(id) => {
                    &&& id@ == digest(tree_bytes(node_views(nodes@)))
                    &&& final(self)@.world().contains_key(id)
                    &&& sorted_by_name(node_views(nodes@))
                    &&& parse_tree(tree_bytes(node_views(nodes@))) == Some(node_views(nodes@))
                    &&& forall|r: Id|
                        nodes_refs(node_views(nodes@)).contains(r) ==> old(
                            self,
                        )@.world().contains_key(r)
                },
                Err(e) => {
                    &&& !sorted_by_name(node_views(nodes@)) ==> e.kind == ErrorKind::Invalid
                        && final(self)@ == old(self)@
                    &&& e.kind == ErrorKind::NotFound <==> sorted_by_name(node_views(nodes@))
                        && exists|id: Id|
                        nodes_refs(node_views(nodes@)).contains(id) && !old(self)@.world().contains_key(id)
                    &&& e.kind == ErrorKind::NotFound ==> final(self)@ == old(self)@
                    &&& e.kind == ErrorKind::Invalid <==> !sorted_by_name(node_views(nodes@)) || (
                    (forall|id: Id|
                        nodes_refs(node_views(nodes@)).contains(id) ==> old(
                            self,
                        )@.world().contains_key(id)) && tree_bytes(node_views(nodes@)).len()
                        >= MAX_MESSAGE)
                    &&& e.kind == ErrorKind::Invalid ==> final(self)@ == old(self)@
                    &&& e.kind == ErrorKind::Invalid || e.kind == ErrorKind::NotFound || e.kind
                        == ErrorKind::Entropy || e.kind == ErrorKind::Conflict || e.kind
                        == ErrorKind::BackendTransient
                    &&& e.kind == ErrorKind::BackendTransient ==> !old(self).reliable()
                },
            },
    {
        proof {
            lemma_same(self@);
        }
        if !is_sorted(nodes) {
            return Err(Error::bare(ErrorKind::Invalid));
        }
        if !self.has_all(nodes) {
            return Err(Error::bare(ErrorKind::NotFound));
        }
        let bytes = encode_tree(nodes);
        self.save_blob(BlobKind::Tree, bytes)
    }

    /// Loads the nodes of a tree. Fails with `Corrupt` where the blob is
    /// no well-formed tree.
    pub fn load_tree(&self, id: &Id) -> (r: Result<Vec<Node>, Error>)
        requires
            self.wf(),
        ensures
            match r {
                Ok(nodes) => self@.plain(*id) is Some && parse_tree(self@.plain(*id).unwrap())
                    == Some(node_views(nodes@)),
                Err(e) => {
                    &&& e.kind != ErrorKind::BackendTransient ==> self@.plain(*id) is None
                        || parse_tree(self@.plain(*id).unwrap()) is None
                    &&& e.kind == ErrorKind::NotFound || e.kind == ErrorKind::Corrupt || e.kind
                        == ErrorKind::BackendTransient
                    &&& e.kind == ErrorKind::BackendTransient ==> !self.reliable()
                },
            },
    {
        let bytes = match self.load_blob(id) {
            Ok(b) => b,
            Err(e) => {
                return Err(e);
            },
        };
        match decode_tree(bytes.as_slice()) {
            Some(nodes) => Ok(nodes),
            None => Err(Error::bare(ErrorKind::Corrupt)),
        }
    }
}

} // verus!
