//! A deduplicating, encrypted backup repository.
//!
//! File content is split into chunks where the content says so
//! ([`chunker`]). Chunks and directory listings become blobs, found by the
//! digest of their content ([`id`], [`blob`], [`tree`]). Blobs are
//! compressed, sealed under the master key and bundled into packs
//! ([`compress`], [`crypto`], [`keys`], [`repo`]); index files say where
//! each blob lies ([`store`], [`idmap`]). A snapshot names the root tree of
//! one backup run ([`snapshots`], [`access`]).
//!
//! Everything is stored through a small capability, the [`backend`]; only
//! the [`retry`] layer tries again where a backend fails for the moment.
//!
//! What the snapshots reach is never lost: [`reach`] walks it, [`check`]
//! finds what is missing or damaged, [`prune`] and [`pruner`] remove what
//! nothing reaches, and [`repair`] rebuilds the index and weeds out damaged
//! snapshots. [`world`] and [`clean`] say what it means for a repository
//! and for a store to be healthy, and [`laws`] relates the operations to
//! each other. [`compare`] compares and merges directory listings, and
//! [`options`] settles what one run of the command line front end does.
//! [`archive`] saves a directory, backs it up as a whole and gives a file
//! of a snapshot back.

pub mod access;
pub mod archive;
pub mod backend;
pub mod blob;
pub mod check;
pub mod chunker;
pub mod clean;
pub mod codec;
pub mod compare;
pub mod compress;
pub mod crypto;
pub mod error;
pub mod id;
pub mod idmap;
pub mod keys;
pub mod laws;
pub mod options;
pub mod prune;
pub mod pruner;
pub mod reach;
pub mod repair;
pub mod repo;
pub mod retry;
pub mod snapshots;
pub mod store;
pub mod tree;
pub mod world;
