//! Blobs and where they are stored.
//!
//! A blob is stored as a segment of a pack: its payload, sealed under the
//! master key. An entry says where the blob with a given address lies.

use crate::backend::Objects;
use crate::codec::{get_u64, lemma_u64_round_trip, put_u64, u64_at, u64_bytes};
use crate::compress::{Compression, pack_payload, unpack_payload, unpacked};
use crate::crypto::{decrypt, encrypt, MAX_MESSAGE, OVERHEAD, unsealed};
use crate::error::{Error, ErrorKind, FileType};
use crate::id::{Id, id_at, lemma_id_at};
use crate::keys::MasterKey;
use vstd::prelude::*;

verus! {

/// Bytes of a written entry.
pub const ENTRY_LEN: usize = 81;

/// What a blob holds.
#[derive(Clone, Copy, Debug, PartialEq, Eq, Structural, Hash)]
pub enum BlobKind {
    /// A chunk of a file's content.
    Data,
    /// A serialized directory listing.
    Tree,
}

impl BlobKind {
    /// The byte that stands for the kind.
    pub open spec fn tag(self) -> u8 {
        match self {
            BlobKind::Data => 0,
            BlobKind::Tree => 1,
        }
    }

    /// The kind that a byte stands for: data for 0, a tree otherwise.
    pub open spec fn of_tag(tag: u8) -> BlobKind {
        if tag == 0 {
            BlobKind::Data
        } else {
            BlobKind::Tree
        }
    }

    /// The byte that stands for the kind.
    pub fn to_tag(self) -> (t: u8)
        ensures
            t == self.tag(),
    {
        match self {
            BlobKind::Data => 0,
            BlobKind::Tree => 1,
        }
    }

    /// The kind that a byte stands for, where the byte is 0 or 1.
    pub fn from_tag(tag: u8) -> (r: Option<BlobKind>)
        ensures
            r == (if tag <= 1 {
                Some(Self::of_tag(tag))
            } else {
                None
            }),
    {
        if tag == 0 {
            Some(BlobKind::Data)
        } else if tag == 1 {
            Some(BlobKind::Tree)
        } else {
            None
        }
    }
}

/// A segment of a pack.
#[derive(Clone, Copy, Debug, PartialEq, Eq)]
pub struct Location {
    pub pack: Id,
    pub offset: u64,
    pub length: u64,
    pub kind: BlobKind,
}

/// A blob's address and where the blob lies.
#[derive(Clone, Copy, Debug, PartialEq, Eq)]
pub struct Entry {
    pub id: Id,
    pub loc: Location,
}

/// The 81 bytes of an entry: address, kind, pack, offset and length.
pub open spec fn entry_bytes(e: Entry) -> Seq<u8> {
    e.id@ + seq![e.loc.kind.tag()] + e.loc.pack@ + u64_bytes(e.loc.offset) + u64_bytes(
        e.loc.length,
    )
}

/// The entry that 81 bytes stand for, or `None` where the length or the
/// kind is wrong.
pub open spec fn parse_entry(b: Seq<u8>) -> Option<Entry> {
    if b.len() != ENTRY_LEN || b[32] > 1 {
        None
    } else {
        Some(
            Entry {
                id: id_at(b, 0),
                loc: Location {
                    pack: id_at(b, 33),
                    offset: u64_at(b, 65),
                    length: u64_at(b, 73),
                    kind: BlobKind::of_tag(b[32]),
                },
            },
        )
    }
}

/// Parsing a written entry gives the entry back.
pub proof fn lemma_entry_round_trip(e: Entry)
    ensures
        entry_bytes(e).len() == ENTRY_LEN,
        parse_entry(entry_bytes(e)) == Some(e),
{
    let b = entry_bytes(e);
    lemma_u64_round_trip(e.loc.offset);
    lemma_u64_round_trip(e.loc.length);
    assert(e.id@.len() == 32);
    assert(e.loc.pack@.len() == 32);
    assert(b.subrange(0, 32) =~= e.id@);
    assert(b.subrange(33, 65) =~= e.loc.pack@);
    assert(b.subrange(65, 73) =~= u64_bytes(e.loc.offset));
    assert(b.subrange(73, 81) =~= u64_bytes(e.loc.length));
    assert(u64_bytes(e.loc.offset).subrange(0, 8) =~= u64_bytes(e.loc.offset));
    assert(u64_bytes(e.loc.length).subrange(0, 8) =~= u64_bytes(e.loc.length));
    lemma_id_at(e.id, b, 0);
    lemma_id_at(e.loc.pack, b, 33);
    assert(b[32] == e.loc.kind.tag());
}

impl Entry {
    /// Appends the bytes of the entry.
    pub fn write(&self, out: &mut Vec<u8>)
        ensures
            final(out)@ == old(out)@ + entry_bytes(*self),
    {
        self.id.write(out);
        out.push(self.loc.kind.to_tag());
        self.loc.pack.write(out);
        put_u64(out, self.loc.offset);
        put_u64(out, self.loc.length);
        assert(out@ =~= old(out)@ + entry_bytes(*self));
    }

    /// The bytes of the entry.
    pub fn to_bytes(&self) -> (out: Vec<u8>)
        ensures
            out@ == entry_bytes(*self),
    {
        let mut out: Vec<u8> = Vec::new();
        self.write(&mut out);
        assert(out@ =~= entry_bytes(*self));
        out
    }

    /// Reads an entry.
    pub fn read(b: &[u8]) -> (r: Option<Entry>)
        ensures
            r == parse_entry(b@),
    {
        if b.len() != ENTRY_LEN {
            return None;
        }
        match BlobKind::from_tag(b[32]) {
            None => None,
            Some(kind) => Some(
                Entry {
                    id: Id::read(b, 0),
                    loc: Location {
                        pack: Id::read(b, 33),
                        offset: get_u64(b, 65),
                        length: get_u64(b, 73),
                        kind,
                    },
                },
            ),
        }
    }
}

/// The bytes of the segment that `loc` names, where the pack exists and is
/// long enough.
pub open spec fn segment(objects: Objects, loc: Location) -> Option<Seq<u8>> {
    let k = (FileType::Pack, loc.pack);
    if objects.contains_key(k) && loc.offset + loc.length <= objects[k].len() {
        Some(objects[k].subrange(loc.offset as int, loc.offset + loc.length))
    } else {
        None
    }
}

/// The blob inside a stored segment, where the segment is authentic under
/// the key and its payload well-formed.
pub open spec fn opened_blob(key: Seq<u8>, stored: Seq<u8>) -> Option<Seq<u8>> {
    match unsealed(key, stored) {
        Some(payload) => unpacked(payload),
        None => None,
    }
}

/// The blob that lies at `loc`.
pub open spec fn blob_at(objects: Objects, key: Seq<u8>, loc: Location) -> Option<Seq<u8>> {
    match segment(objects, loc) {
        Some(stored) => opened_blob(key, stored),
        None => None,
    }
}

/// Makes the stored form of a blob: its payload, sealed with a fresh
/// nonce. Fails with `Invalid` exactly where the blob has `MAX_MESSAGE`
/// bytes or more, else with `Entropy` where the random source fails.
pub fn seal_blob(key: &MasterKey, data: &[u8], compression: Compression) -> (r: Result<
    Vec<u8>,
    Error,
>)
    ensures
        match r {
            Ok(s) => opened_blob(key@, s@) == Some(data@) && OVERHEAD < s@.len() <= data@.len()
                + OVERHEAD + 1,
            Err(e) => e.context is None && (if data@.len() >= MAX_MESSAGE {
                e.kind == ErrorKind::Invalid
            } else {
                e.kind == ErrorKind::Entropy
            }),
        },
{
    if data.len() >= MAX_MESSAGE {
        return Err(Error::bare(ErrorKind::Invalid));
    }
    let payload = pack_payload(data, compression);
    match encrypt(&key.bytes, payload.as_slice()) {
        Ok(s) => Ok(s),
        Err(e) => Err(Error::bare(ErrorKind::Entropy)),
    }
}

/// Reads the blob out of its stored form. Fails with `Corrupt` exactly
/// where the segment is not authentic or its payload malformed.
pub fn open_blob(key: &MasterKey, stored: &[u8]) -> (r: Result<Vec<u8>, Error>)
    ensures
        match r {
            Ok(d) => opened_blob(key@, stored@) == Some(d@),
            Err(e) => opened_blob(key@, stored@) is None && e == (Error {
                kind: ErrorKind::Corrupt,
                context: None,
            }),
        },
{
    let payload = decrypt(&key.bytes, stored)?;
    match unpack_payload(payload.as_slice()) {
        Some(d) => Ok(d),
        None => Err(Error::bare(ErrorKind::Corrupt)),
    }
}

} // verus!
