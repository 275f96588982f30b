//! Key records: the master key, sealed under a key derived from a password.
//!
//! A record holds a salt of 32 bytes, the cost parameters of the derivation
//! (one byte, then two numbers of eight bytes) and the sealed master key.
//! Salt and parameters are not secret.

use crate::codec::{get_u64, lemma_u64_round_trip, put_u64, u64_at, u64_bytes};
use crate::crypto::{
    append, derive_key, derived, fresh_nonce, fresh_secret, KdfParams, open, seal, unsealed,
};
use crate::error::{Error, ErrorKind};
use vstd::prelude::*;
use vstd::slice::*;

verus! {

/// Bytes of a key record.
pub const RECORD_LEN: usize = 121;

/// The key under which everything in a repository is encrypted.
#[derive(Clone, Copy, PartialEq, Eq)]
pub struct MasterKey {
    pub bytes: [u8; 32],
}

impl View for MasterKey {
    type V = Seq<u8>;

    open spec fn view(&self) -> Seq<u8> {
        self.bytes@
    }
}

/// The master key that a record gives up to a password, or `None` where
/// the record is malformed, asks for a derivation outside of the accepted
/// cost, or does not open under the password.
pub open spec fn record_opens(record: Seq<u8>, password: Seq<u8>) -> Option<Seq<u8>> {
    if record.len() != RECORD_LEN {
        None
    } else {
        let r = u64_at(record, 33);
        let p = u64_at(record, 41);
        if r > u32::MAX || p > u32::MAX {
            None
        } else {
            let params = KdfParams { log_n: record[32], r: r as u32, p: p as u32 };
            if !params.valid() {
                None
            } else {
                unsealed(
                    derived(password, record.subrange(0, 32), params.log_n, params.r, params.p),
                    record.subrange(49, RECORD_LEN as int),
                )
            }
        }
    }
}

/// The master key that the first record that opens under the password
/// gives, or `None` where no record opens.
pub open spec fn unlocked(records: Seq<Seq<u8>>, password: Seq<u8>) -> Option<Seq<u8>>
    decreases records.len(),
{
    if records.len() == 0 {
        None
    } else {
        match record_opens(records[0], password) {
            Some(k) => Some(k),
            None => unlocked(records.skip(1), password),
        }
    }
}

/// Copies the 32 bytes of `data` that start at `at`.
pub fn array32(data: &[u8], at: usize) -> (out: [u8; 32])
    requires
        at + 32 <= data.len(),
    ensures
        out@ == data@.subrange(at as int, at + 32),
{
    let mut out = [0u8; 32];
    let mut i: usize = 0;
    while i < 32
        invariant
            i <= 32,
            at + 32 <= data.len(),
            forall|j: int| 0 <= j < i ==> out@[j] == data@[at + j],
        decreases 32 - i,
    {
        out[i] = data[at + i];
        i += 1;
    }
    assert(out@ =~= data@.subrange(at as int, at + 32));
    out
}

/// Opens a key record with a password.
pub fn open_record(record: &[u8], password: &[u8]) -> (r: Option<MasterKey>)
    ensures
        match r {
            Some(k) => record_opens(record@, password@) == Some(k@),
            None => record_opens(record@, password@) is None,
        },
{
    if record.len() != RECORD_LEN {
        return None;
    }
    let r = get_u64(record, 33);
    let p = get_u64(record, 41);
    if r > u32::MAX as u64 || p > u32::MAX as u64 {
        return None;
    }
    let params = KdfParams { log_n: record[32], r: r as u32, p: p as u32 };
    if !params.is_valid() {
        return None;
    }
    let key = derive_key(password, slice_subrange(record, 0, 32), &params);
    match open(&key, slice_subrange(record, 49, RECORD_LEN)) {
        Some(m) => Some(MasterKey { bytes: array32(m.as_slice(), 0) }),
        None => None,
    }
}

/// Makes the record that gives `master` up to `password`.
pub fn make_record(
    master: &MasterKey,
    password: &[u8],
    params: &KdfParams,
    salt: &[u8; 32],
    nonce: &[u8; 24],
) -> (record: Vec<u8>)
    requires
        params.valid(),
    ensures
        record@.len() == RECORD_LEN,
        record_opens(record@, password@) == Some(master@),
{
    let key = derive_key(password, salt.as_slice(), params);
    let mut record: Vec<u8> = Vec::new();
    append(&mut record, salt.as_slice());
    record.push(params.log_n);
    put_u64(&mut record, params.r as u64);
    put_u64(&mut record, params.p as u64);
    let sealed = match seal(&key, nonce, master.bytes.as_slice()) {
        Some(s) => s,
        None => Vec::new(),
    };
    append(&mut record, sealed.as_slice());
    proof {
        lemma_u64_round_trip(params.r as u64);
        lemma_u64_round_trip(params.p as u64);
        let s = record@;
        assert(s =~= salt@ + seq![params.log_n] + u64_bytes(params.r as u64) + u64_bytes(
            params.p as u64,
        ) + sealed@);
        assert(s.subrange(0, 32) =~= salt@);
        assert(s.subrange(33, 41) =~= u64_bytes(params.r as u64));
        assert(s.subrange(41, 49) =~= u64_bytes(params.p as u64));
        assert(u64_bytes(params.r as u64).subrange(0, 8) =~= u64_bytes(params.r as u64));
        assert(u64_bytes(params.p as u64).subrange(0, 8) =~= u64_bytes(params.p as u64));
        assert(s.subrange(49, RECORD_LEN as int) =~= sealed@);
        assert(s[32] == params.log_n);
    }
    record
}

/// Makes a record for `password` with a fresh salt and nonce. Fails with
/// `Invalid` where the parameters are not valid and with `Entropy` where
/// the random source fails.
pub fn new_record(master: &MasterKey, password: &[u8], params: &KdfParams) -> (r: Result<
    Vec<u8>,
    Error,
>)
    ensures
        match r {
            Ok(record) => params.valid() && record@.len() == RECORD_LEN && record_opens(
                record@,
                password@,
            ) == Some(master@),
            Err(e) => e.context is None && (if params.valid() {
                e.kind == ErrorKind::Entropy
            } else {
                e.kind == ErrorKind::Invalid
            }),
        },
{
    if !params.is_valid() {
        return Err(Error::bare(ErrorKind::Invalid));
    }
    let salt = fresh_secret()?;
    let nonce = fresh_nonce()?;
    Ok(make_record(master, password, params, &salt, &nonce))
}

/// The views of the records of a vector.
pub open spec fn record_views(records: Seq<Vec<u8>>) -> Seq<Seq<u8>> {
    records.map_values(|r: Vec<u8>| r@)
}

/// Tries the records in order and gives the master key of the first that
/// opens under the password. Fails with `AuthenticationFailed` where none
/// opens.
pub fn unlock(records: &Vec<Vec<u8>>, password: &[u8]) -> (r: Result<MasterKey, Error>)
    ensures
        match r {
            Ok(k) => unlocked(record_views(records@), password@) == Some(k@),
            Err(e) => unlocked(record_views(records@), password@) is None && e == (Error {
                kind: ErrorKind::AuthenticationFailed,
                context: None,
            }),
        },
{
    let ghost views = record_views(records@);
    let mut i: usize = 0;
    assert(views.skip(0) =~= views);
    while i < records.len()
        invariant
            i <= records@.len(),
            views == record_views(records@),
            unlocked(views, password@) == unlocked(views.skip(i as int), password@),
        decreases records@.len() - i,
    {
        proof {
            assert(views.skip(i as int)[0] == records@[i as int]@);
            assert(views.skip(i as int).skip(1) =~= views.skip(i + 1));
        }
        match open_record(records[i].as_slice(), password) {
            Some(k) => {
                return Ok(k);
            },
            None => {},
        }
        i += 1;
    }
    Err(Error::bare(ErrorKind::AuthenticationFailed))
}

/// Unlocking fails exactly where no record opens under the password.
pub proof fn lemma_unlocked_none(records: Seq<Seq<u8>>, password: Seq<u8>)
    ensures
        unlocked(records, password) is None <==> forall|i: int|
            0 <= i < records.len() ==> record_opens(#[trigger] records[i], password) is None,
    decreases records.len(),
{
    if records.len() > 0 {
        let tail = records.skip(1);
        lemma_unlocked_none(tail, password);
        if unlocked(records, password) is None {
            assert forall|i: int| 0 <= i < records.len() implies record_opens(
                #[trigger] records[i],
                password,
            ) is None by {
                if i > 0 {
                    assert(records[i] == tail[i - 1]);
                }
            }
        } else {
            if record_opens(records[0], password) is None {
                let j = choose|j: int|
                    0 <= j < tail.len() && !(record_opens(#[trigger] tail[j], password) is None);
                assert(tail[j] == records[j + 1]);
            }
        }
    }
}

/// What unlocking gives is what one of the records gives.
pub proof fn lemma_unlocked_some(records: Seq<Seq<u8>>, password: Seq<u8>)
    requires
        unlocked(records, password) is Some,
    ensures
        exists|i: int|
            0 <= i < records.len() && record_opens(#[trigger] records[i], password) == unlocked(
                records,
                password,
            ),
    decreases records.len(),
{
    if record_opens(records[0], password) is None {
        let tail = records.skip(1);
        lemma_unlocked_some(tail, password);
        let j = choose|j: int|
            0 <= j < tail.len() && record_opens(#[trigger] tail[j], password) == unlocked(
                tail,
                password,
            );
        assert(tail[j] == records[j + 1]);
    }
}

/// Where one record gives `master` up to the password and no record gives
/// up another key to it, unlocking gives `master`, in whatever order the
/// records stand.
pub proof fn law_unlock_finds(records: Seq<Seq<u8>>, password: Seq<u8>, master: Seq<u8>)
    requires
        exists|i: int|
            0 <= i < records.len() && record_opens(#[trigger] records[i], password) == Some(
                master,
            ),
        forall|i: int|
            0 <= i < records.len() ==> record_opens(#[trigger] records[i], password) is None
                || record_opens(records[i], password) == Some(master),
    ensures
        unlocked(records, password) == Some(master),
{
    lemma_unlocked_none(records, password);
    lemma_unlocked_some(records, password);
}

/// Adding a key: after a record that gives `master` up to a second
/// password is added, the first password and the second both unlock
/// `master`. This holds where no earlier record gives up another key to
/// the second password.
pub proof fn law_key_added(
    records: Seq<Seq<u8>>,
    added: Seq<u8>,
    first: Seq<u8>,
    second: Seq<u8>,
    master: Seq<u8>,
)
    requires
        unlocked(records, first) == Some(master),
        record_opens(added, second) == Some(master),
        forall|i: int|
            0 <= i < records.len() ==> record_opens(#[trigger] records[i], second) is None
                || record_opens(records[i], second) == Some(master),
    ensures
        unlocked(records.push(added), first) == Some(master),
        unlocked(records.push(added), second) == Some(master),
{
    let all = records.push(added);
    assert(all[records.len() as int] == added);
    assert forall|i: int| 0 <= i < all.len() implies record_opens(#[trigger] all[i], second)
        is None || record_opens(all[i], second) == Some(master) by {
        if i < records.len() {
            assert(all[i] == records[i]);
        }
    }
    law_unlock_finds(all, second, master);
    lemma_unlock_push(records, added, first);
}

proof fn lemma_unlock_push(records: Seq<Seq<u8>>, added: Seq<u8>, password: Seq<u8>)
    requires
        unlocked(records, password) is Some,
    ensures
        unlocked(records.push(added), password) == unlocked(records, password),
    decreases records.len(),
{
    let all = records.push(added);
    assert(all[0] == records[0]);
    if record_opens(records[0], password) is None {
        assert(all.skip(1) =~= records.skip(1).push(added));
        lemma_unlock_push(records.skip(1), added, password);
    }
}

/// Removing a key: once the record of a password is removed and no other
/// record opens under that password, unlocking with it fails.
pub proof fn law_key_removed(records: Seq<Seq<u8>>, at: int, password: Seq<u8>)
    requires
        0 <= at < records.len(),
        forall|j: int|
            0 <= j < records.len() && j != at ==> record_opens(#[trigger] records[j], password)
                is None,
    ensures
        unlocked(records.remove(at), password) is None,
{
    let rest = records.remove(at);
    assert forall|i: int| 0 <= i < rest.len() implies record_opens(#[trigger] rest[i], password)
        is None by {
        if i < at {
            assert(rest[i] == records[i]);
        } else {
            assert(rest[i] == records[i + 1]);
        }
    }
    lemma_unlocked_none(rest, password);
}

} // verus!
