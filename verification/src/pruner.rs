//! A prune, one phase at a time.
//!
//! The phases follow each other from `Scanning` to `Done`. A step that
//! fails sends the prune back to `Scanning`: starting over is always safe,
//! since whenever a step ends the store is as clean as it was.

use crate::backend::Backend;
use crate::blob::Entry;
use crate::clean::store_clean;
use crate::error::{Error, ErrorKind, FileType};
use crate::id::Id;
use crate::idmap::IdMap;
use crate::crypto::MAX_MESSAGE;
use crate::prune::{
    exact, lemma_others_same, lemma_step_added, lemma_step_index, lemma_step_removed, mirrors,
    missing_in, others_same, PackAction, PackPlan, Phase, Plan, reach_set, ready,
    spec_classify, unplaced_in, unreadable_in, walked,
};
use crate::reach::Mark;
use crate::repo::Repository;
use crate::store::{bad_index, indexed, lists, Pending, RepoView};
use crate::world::{closed, complete, rooted};
use vstd::prelude::*;

verus! {

/// The phase that follows a phase.
pub open spec fn spec_next(phase: Phase) -> Phase {
    match phase {
        Phase::Scanning => Phase::ComputingReachability,
        Phase::ComputingReachability => Phase::Planning,
        Phase::Planning => Phase::Repacking,
        Phase::Repacking => Phase::Deleting,
        Phase::Deleting => Phase::Done,
        Phase::Done => Phase::Done,
    }
}

/// The index is committed: the index file `keep` lists exactly the index
/// in memory, which holds what the snapshots reach and is closed; no blob
/// of it lies in a pack of `doomed`; and every other index file is one of
/// `files`.
pub open spec fn committed(v: RepoView, files: Seq<Id>, keep: Id, doomed: Seq<Id>) -> bool {
    &&& mirrors(v, keep)
    &&& v.objects.contains_key((FileType::Index, keep))
    &&& closed(v.world())
    &&& rooted(v.stored(), v.roots())
    &&& complete(v.world(), v.roots())
    &&& forall|id: Id| #[trigger]
        v.index.contains_key(id) ==> !doomed.contains(v.index[id].pack)
    &&& forall|f: Id| #[trigger]
        v.objects.contains_key((FileType::Index, f)) ==> f == keep || files.contains(f)
}

/// The decisions are those of a prune of `v` at `threshold` percent: there
/// is one for every pack, with the size of the pack, and each follows from
/// the use of its pack.
pub open spec fn decided(v: RepoView, packs: Seq<PackPlan>, threshold: u8) -> bool {
    &&& forall|p: Id|
        (exists|i: int| 0 <= i < packs.len() && (#[trigger] packs[i]).pack == p)
            <==> v.objects.contains_key((FileType::Pack, p))
    &&& forall|i: int|
        0 <= i < packs.len() ==> {
            &&& (#[trigger] packs[i]).size == v.objects[(FileType::Pack, packs[i].pack)].len()
            &&& packs[i].action == spec_classify(
                packs[i].live.blobs,
                packs[i].live.bytes,
                packs[i].size,
                threshold,
            )
        }
}

/// What an error of a phase says of the repository `v` on which the
/// phase was carried out. `Scanning` fails with `Invalid` exactly where
/// blobs wait to be packed and with `Corrupt` where an index file cannot be
/// read. `ComputingReachability` fails with `NotFound` where a reachable
/// blob is missing and with `Corrupt` where a snapshot or a reachable tree
/// cannot be read. `Repacking` fails with `NotFound` or `Corrupt` where a
/// reachable blob has no segment at its place, and with `Invalid` where
/// more is reachable than one index file can list. Beyond that a phase
/// fails only as the backend or the random source does. A prune that is
/// done does not fail.
pub open spec fn halted(phase: Phase, v: RepoView, kind: ErrorKind) -> bool {
    match phase {
        Phase::Scanning => {
            &&& kind == ErrorKind::Invalid || kind == ErrorKind::Corrupt || kind
                == ErrorKind::BackendTransient
            &&& kind == ErrorKind::Invalid <==> v.pending != Map::<Id, Pending>::empty()
            &&& kind == ErrorKind::Corrupt ==> bad_index(v.objects, v.key)
        },
        Phase::ComputingReachability => {
            &&& kind == ErrorKind::NotFound || kind == ErrorKind::Corrupt || kind
                == ErrorKind::BackendTransient
            &&& kind == ErrorKind::NotFound ==> missing_in(v)
            &&& kind == ErrorKind::Corrupt ==> unreadable_in(v)
        },
        Phase::Planning => kind == ErrorKind::BackendTransient,
        Phase::Repacking => {
            &&& kind == ErrorKind::NotFound || kind == ErrorKind::Corrupt || kind
                == ErrorKind::Invalid || kind == ErrorKind::Entropy || kind == ErrorKind::Conflict
                || kind == ErrorKind::BackendTransient
            &&& kind == ErrorKind::NotFound || kind == ErrorKind::Corrupt ==> unplaced_in(v)
            &&& kind == ErrorKind::Invalid ==> 89 * reach_set(v).len() > MAX_MESSAGE
        },
        Phase::Deleting => kind == ErrorKind::BackendTransient,
        Phase::Done => false,
    }
}

/// A prune in progress.
pub struct Pruner {
    phase: Phase,
    threshold: u8,
    reach: IdMap<Mark>,
    plan: Plan,
    keep: Id,
    doomed: Vec<Id>,
}

impl Pruner {
    /// The phase that is next to be carried out.
    pub closed spec fn spec_phase(&self) -> Phase {
        self.phase
    }

    /// The percentage below which a pack is repacked.
    pub closed spec fn spec_threshold(&self) -> u8 {
        self.threshold
    }

    /// The decisions of the plan, pack by pack: none before the planning
    /// is done.
    pub closed spec fn spec_planned(&self) -> Seq<PackPlan> {
        self.plan.packs@
    }

    /// What the prune relies on when its next phase is carried out on the
    /// repository `v`.
    pub closed spec fn inv(&self, v: RepoView) -> bool {
        match self.phase {
            Phase::Scanning => true,
            Phase::ComputingReachability => v.pending == Map::<Id, Pending>::empty() && !bad_index(
                v.objects,
                v.key,
            ),
            Phase::Planning => v.pending == Map::<Id, Pending>::empty() && !bad_index(
                v.objects,
                v.key,
            ) && walked(v, self.reach),
            Phase::Repacking => v.pending == Map::<Id, Pending>::empty() && !bad_index(
                v.objects,
                v.key,
            ) && ready(v, self.plan),
            Phase::Deleting => v.pending == Map::<Id, Pending>::empty() && !bad_index(
                v.objects,
                v.key,
            ) && committed(v, self.plan.files@, self.keep, self.doomed@),
            Phase::Done => !bad_index(v.objects, v.key),
        }
    }

    /// A prune at `threshold` percent that has not begun.
    pub fn new(threshold: u8) -> (p: Pruner)
        ensures
            p.spec_phase() == Phase::Scanning,
            p.spec_threshold() == threshold,
            p.spec_planned() == Seq::<PackPlan>::empty(),
            forall|v: RepoView| p.inv(v),
    {
        Pruner {
            phase: Phase::Scanning,
            threshold,
            reach: IdMap::new(),
            plan: Plan {
                reach: IdMap::new(),
                packs: Vec::new(),
                actions: IdMap::new(),
                files: Vec::new(),
            },
            keep: Id::zero(),
            doomed: Vec::new(),
        }
    }

    /// The phase that is next to be carried out.
    pub fn phase(&self) -> (p: Phase)
        ensures
            p == self.spec_phase(),
    {
        self.phase
    }

    /// The decisions of the plan, pack by pack, once the planning is done.
    pub fn planned(&self) -> (packs: &Vec<PackPlan>)
        ensures
            packs@ == self.spec_planned(),
    {
        &self.plan.packs
    }

    /// Carries out the next phase on the repository.
    ///
    /// `Scanning` reads the index files; it fails with `Invalid` where
    /// blobs wait to be packed. `ComputingReachability` walks what the
    /// snapshots reach. `Planning` classifies the packs. `Repacking` copies
    /// the reachable blobs out of the packs that are not kept and commits
    /// the index. `Deleting` removes the old index files, then the packs.
    /// A failure sends the prune back to `Scanning`. No step touches the
    /// configuration, a key record or a snapshot, and after a step that
    /// succeeded every index file can be read.
    pub fn step<B: Backend>(&mut self, repo: &mut Repository<B>) -> (r: Result<Phase, Error>)
        requires
            old(repo).wf(),
            old(self).inv(old(repo)@),
        ensures
            final(repo).wf(),
            final(self).inv(final(repo)@),
            final(repo).reliable() == old(repo).reliable(),
            final(repo).spec_config() == old(repo).spec_config(),
            final(repo)@.key == old(repo)@.key,
            final(repo)@.pending == old(repo)@.pending,
            final(repo)@.roots() == old(repo)@.roots(),
            final(self).spec_threshold() == old(self).spec_threshold(),
            others_same(old(repo)@.objects, final(repo)@.objects),
            !bad_index(old(repo)@.objects, old(repo)@.key) ==> !bad_index(
                final(repo)@.objects,
                final(repo)@.key,
            ),
            r is Ok ==> !bad_index(final(repo)@.objects, final(repo)@.key),
            old(self).spec_phase() != Phase::Planning || r is Err ==> final(self).spec_planned()
                == old(self).spec_planned(),
            store_clean(old(repo)@.objects, old(repo)@.key) ==> store_clean(
                final(repo)@.objects,
                final(repo)@.key,
            ),
            match r {
                Ok(p) => {
                    &&& p == final(self).spec_phase()
                    &&& p == spec_next(old(self).spec_phase())
                    &&& old(self).spec_phase() == Phase::Planning ==> decided(
                        final(repo)@,
                        final(self).spec_planned(),
                        final(self).spec_threshold(),
                    )
                    &&& old(self).spec_phase() == Phase::Deleting ==> {
                        &&& exact(final(repo)@)
                        &&& complete(final(repo)@.world(), final(repo)@.roots())
                        &&& closed(final(repo)@.world())
                    }
                    &&& old(self).spec_phase() == Phase::Done ==> final(repo)@ == old(repo)@
                },
                Err(e) => {
                    &&& final(self).spec_phase() == Phase::Scanning
                    &&& halted(old(self).spec_phase(), old(repo)@, e.kind)
                    &&& e.kind == ErrorKind::BackendTransient ==> !old(repo).reliable()
                },
            },
            old(self).spec_phase() == Phase::Scanning && old(repo)@.pending != Map::<
                Id,
                Pending,
            >::empty() ==> r is Err,
    {
        let ghost v0 = repo@;
        proof {
            lemma_others_same(v0.objects);
        }
        match self.phase {
            Phase::Scanning => {
                if repo.queue.len() > 0 {
                    proof {
                        assert(repo.queued@.contains_key(repo.queue@[0].id));
                        assert(repo@.pending.contains_key(repo.queue@[0].id));
                    }
                    return Err(Error::bare(ErrorKind::Invalid));
                }
                assert(repo@.pending =~= Map::<Id, Pending>::empty());
                match repo.reload_index() {
                    Ok(()) => {},
                    Err(e) => {
                        return Err(e);
                    },
                }
                self.phase = Phase::ComputingReachability;
                Ok(Phase::ComputingReachability)
            },
            Phase::ComputingReachability => {
                match repo.walk() {
                    Ok(reach) => {
                        self.reach = reach;
                        self.phase = Phase::Planning;
                        Ok(Phase::Planning)
                    },
                    Err(e) => {
                        self.phase = Phase::Scanning;
                        Err(e)
                    },
                }
            },
            Phase::Planning => {
                let mut reach: IdMap<Mark> = IdMap::new();
                core::mem::swap(&mut reach, &mut self.reach);
                match repo.plan_packs(reach, self.threshold) {
                    Ok(plan) => {
                        self.doomed = Repository::<B>::doomed(&plan);
                        self.plan = plan;
                        self.phase = Phase::Repacking;
                        Ok(Phase::Repacking)
                    },
                    Err(e) => {
                        self.phase = Phase::Scanning;
                        Err(e)
                    },
                }
            },
            Phase::Repacking => {
                let staged = repo.stage(&self.plan);
                proof {
                    lemma_step_added(v0.objects, v0.objects, repo@.objects, v0.key);
                }
                let live = match staged {
                    Ok(l) => l,
                    Err(e) => {
                        self.phase = Phase::Scanning;
                        return Err(e);
                    },
                };
                let ghost v1 = repo@;
                let ghost places = live@;
                assert(reach_set(v0) =~= places.dom());
                let keep = match repo.commit_index(live) {
                    Ok(n) => n,
                    Err(e) => {
                        self.phase = Phase::Scanning;
                        return Err(e);
                    },
                };
                proof {
                    lemma_step_index(v0.objects, v1.objects, repo@.objects, keep, v0.key);
                }
                self.doomed = Repository::<B>::doomed(&self.plan);
                self.keep = keep;
                self.phase = Phase::Deleting;
                proof {
                    let v2 = repo@;
                    assert forall|id: Id| #[trigger] v2.index.contains_key(id) implies !self.doomed@.contains(
                        v2.index[id].pack,
                    ) by {
                        if self.doomed@.contains(places[id].pack) {
                            let i = choose|i: int|
                                0 <= i < self.plan.packs@.len() && (
                                #[trigger] self.plan.packs@[i]).pack == places[id].pack
                                    && self.plan.packs@[i].action != PackAction::Keep;
                        }
                    }
                    assert forall|f: Id| #[trigger]
                        v2.objects.contains_key((FileType::Index, f)) implies f == keep
                        || self.plan.files@.contains(f) by {
                        if f != keep {
                            assert(v1.objects.contains_key((FileType::Index, f)));
                            assert(v0.objects.contains_key((FileType::Index, f)));
                        }
                    }
                }
                Ok(Phase::Deleting)
            },
            Phase::Deleting => {
                let dropped = repo.drop_indexes(&self.plan.files, &self.keep);
                let ghost v1 = repo@;
                proof {
                    lemma_step_removed(v0.objects, v0.objects, v1.objects, v0.key);
                }
                match dropped {
                    Ok(()) => {},
                    Err(e) => {
                        self.phase = Phase::Scanning;
                        return Err(e);
                    },
                }
                proof {
                    let v1 = repo@;
                    assert forall|e: Entry| #[trigger]
                        indexed(v1.objects, v1.key, e) <==> v1.index.contains_key(e.id)
                            && v1.index[e.id] == e.loc by {
                        if indexed(v1.objects, v1.key, e) {
                            let f = choose|f: Id| #[trigger] lists(v1.objects, v1.key, f, e);
                            if f != self.keep {
                                assert(v0.objects.contains_key((FileType::Index, f)));
                                assert(self.plan.files@.contains(f));
                            }
                        }
                        if v1.index.contains_key(e.id) && v1.index[e.id] == e.loc {
                            assert(lists(v1.objects, v1.key, self.keep, e));
                        }
                    }
                }
                let removed = repo.drop_packs(&self.doomed);
                proof {
                    lemma_step_removed(v0.objects, v1.objects, repo@.objects, v0.key);
                }
                match removed {
                    Ok(()) => {},
                    Err(e) => {
                        self.phase = Phase::Scanning;
                        return Err(e);
                    },
                }
                self.phase = Phase::Done;
                Ok(Phase::Done)
            },
            Phase::Done => Ok(Phase::Done),
        }
    }
}

} // verus!
