//! Byte layouts shared by the stored records: numbers of eight bytes, little
//! end first, and lists of fields, each preceded by its length.

use crate::crypto::{append, copy_range};
use crate::id::{Id, id_at, lemma_id_at};
use vstd::bytes::*;
use vstd::prelude::*;
use vstd::slice::*;

verus! {

/// The eight bytes of a number, little end first.
pub open spec fn u64_bytes(v: u64) -> Seq<u8> {
    spec_u64_to_le_bytes(v)
}

/// The number whose eight bytes start at `at`.
pub open spec fn u64_at(bytes: Seq<u8>, at: int) -> u64 {
    spec_u64_from_le_bytes(bytes.subrange(at, at + 8))
}

/// Eight bytes are written, and reading them gives the number back.
pub proof fn lemma_u64_round_trip(v: u64)
    ensures
        u64_bytes(v).len() == 8,
        u64_at(u64_bytes(v), 0) == v,
{
    lemma_auto_spec_u64_to_from_le_bytes();
    assert(u64_bytes(v).subrange(0, 8) =~= u64_bytes(v));
}

/// Reading where a number was written gives the number.
pub proof fn lemma_u64_at_concat(pre: Seq<u8>, v: u64, post: Seq<u8>)
    ensures
        u64_at(pre + u64_bytes(v) + post, pre.len() as int) == v,
        u64_bytes(v).len() == 8,
{
    lemma_auto_spec_u64_to_from_le_bytes();
    let all = pre + u64_bytes(v) + post;
    assert(all.subrange(pre.len() as int, pre.len() as int + 8) =~= u64_bytes(v));
}

/// Reading where an address was written gives the address.
pub proof fn lemma_id_at_concat(pre: Seq<u8>, id: Id, post: Seq<u8>)
    ensures
        id_at(pre + id@ + post, pre.len() as int) == id,
{
    let all = pre + id@ + post;
    assert(id@.len() == 32);
    assert(all.subrange(pre.len() as int, pre.len() as int + 32) =~= id@);
    lemma_id_at(id, all, pre.len() as int);
}

/// Appends the eight bytes of `v`.
pub fn put_u64(out: &mut Vec<u8>, v: u64)
    ensures
        final(out)@ == old(out)@ + u64_bytes(v),
        final(out)@.len() == old(out)@.len() + 8,
{
    let b = u64_to_le_bytes(v);
    append(out, b.as_slice());
}

/// Reads the number whose eight bytes start at `at`.
pub fn get_u64(bytes: &[u8], at: usize) -> (v: u64)
    requires
        at + 8 <= bytes@.len(),
    ensures
        v == u64_at(bytes@, at as int),
{
    let len = bytes.len();
    assert(at + 8 <= len);
    u64_from_le_bytes(slice_subrange(bytes, at, at + 8))
}

/// A field with its length in front.
pub open spec fn field_bytes(f: Seq<u8>) -> Seq<u8> {
    u64_bytes(f.len() as u64) + f
}

/// A list of fields, one after the other.
pub open spec fn fields_bytes(fs: Seq<Seq<u8>>) -> Seq<u8>
    decreases fs.len(),
{
    if fs.len() == 0 {
        Seq::empty()
    } else {
        fields_bytes(fs.drop_last()) + field_bytes(fs.last())
    }
}

/// The fields that `bytes` list, or `None` where a length reaches beyond
/// the end.
pub open spec fn parse_fields(bytes: Seq<u8>) -> Option<Seq<Seq<u8>>>
    decreases bytes.len(),
{
    if bytes.len() == 0 {
        Some(Seq::empty())
    } else if bytes.len() < 8 {
        None
    } else {
        let n = u64_at(bytes, 0) as int;
        if n > bytes.len() - 8 {
            None
        } else {
            match parse_fields(bytes.subrange(8 + n, bytes.len() as int)) {
                Some(rest) => Some(seq![bytes.subrange(8, 8 + n)] + rest),
                None => None,
            }
        }
    }
}

/// Every field is short enough for its length to fit in eight bytes.
pub open spec fn fields_fit(fs: Seq<Seq<u8>>) -> bool {
    forall|i: int| 0 <= i < fs.len() ==> (#[trigger] fs[i]).len() <= u64::MAX
}

proof fn lemma_parse_one(f: Seq<u8>, rest: Seq<u8>)
    requires
        f.len() <= u64::MAX,
    ensures
        parse_fields(field_bytes(f) + rest) == match parse_fields(rest) {
            Some(r) => Some(seq![f] + r),
            None => None,
        },
{
    let bytes = field_bytes(f) + rest;
    lemma_auto_spec_u64_to_from_le_bytes();
    assert(bytes.subrange(0, 8) =~= u64_bytes(f.len() as u64));
    assert(u64_at(bytes, 0) == f.len());
    assert(bytes.subrange(8, 8 + f.len() as int) =~= f);
    assert(bytes.subrange(8 + f.len() as int, bytes.len() as int) =~= rest);
}

proof fn lemma_fields_bytes_add(a: Seq<Seq<u8>>, b: Seq<Seq<u8>>)
    ensures
        fields_bytes(a + b) == fields_bytes(a) + fields_bytes(b),
    decreases b.len(),
{
    if b.len() == 0 {
        assert(a + b =~= a);
        assert(fields_bytes(a) + fields_bytes(b) =~= fields_bytes(a));
    } else {
        assert((a + b).drop_last() =~= a + b.drop_last());
        assert((a + b).last() == b.last());
        lemma_fields_bytes_add(a, b.drop_last());
        assert((fields_bytes(a) + fields_bytes(b.drop_last())) + field_bytes(b.last())
            =~= fields_bytes(a) + (fields_bytes(b.drop_last()) + field_bytes(b.last())));
    }
}

/// A list of one field is that field with its length in front.
pub proof fn lemma_fields_bytes_one(f: Seq<u8>)
    ensures
        fields_bytes(seq![f]) == field_bytes(f),
{
    assert(seq![f].drop_last() =~= Seq::<Seq<u8>>::empty());
    assert(fields_bytes(seq![f].drop_last()) + field_bytes(f) =~= field_bytes(f));
}

/// Parsing a written list of fields gives the fields back.
pub proof fn lemma_fields_round_trip(fs: Seq<Seq<u8>>)
    requires
        fields_fit(fs),
    ensures
        parse_fields(fields_bytes(fs)) == Some(fs),
    decreases fs.len(),
{
    if fs.len() > 0 {
        let head = fs[0];
        let tail = fs.subrange(1, fs.len() as int);
        assert(fs =~= seq![head] + tail);
        lemma_fields_bytes_add(seq![head], tail);
        lemma_fields_bytes_one(head);
        assert(fields_fit(tail)) by {
            assert forall|i: int| 0 <= i < tail.len() implies (#[trigger] tail[i]).len()
                <= u64::MAX by {
                assert(tail[i] == fs[i + 1]);
            }
        }
        lemma_fields_round_trip(tail);
        lemma_parse_one(head, fields_bytes(tail));
    }
}

/// Appends a field with its length in front.
pub fn put_field(out: &mut Vec<u8>, field: &[u8])
    ensures
        final(out)@ == old(out)@ + field_bytes(field@),
{
    put_u64(out, field.len() as u64);
    append(out, field);
    assert(out@ =~= old(out)@ + field_bytes(field@));
}

/// Writes a list of fields.
pub fn write_fields(fields: &Vec<Vec<u8>>) -> (out: Vec<u8>)
    ensures
        out@ == fields_bytes(fields@.map_values(|f: Vec<u8>| f@)),
{
    let ghost views = fields@.map_values(|f: Vec<u8>| f@);
    let mut out: Vec<u8> = Vec::new();
    let mut i: usize = 0;
    while i < fields.len()
        invariant
            i <= fields@.len(),
            views == fields@.map_values(|f: Vec<u8>| f@),
            out@ == fields_bytes(views.take(i as int)),
        decreases fields@.len() - i,
    {
        put_field(&mut out, fields[i].as_slice());
        proof {
            assert(views.take(i + 1).drop_last() =~= views.take(i as int));
            assert(views.take(i + 1).last() == fields@[i as int]@);
        }
        i += 1;
    }
    assert(views.take(fields@.len() as int) =~= views);
    out
}

/// Reads a list of fields.
pub fn read_fields(bytes: &[u8]) -> (r: Option<Vec<Vec<u8>>>)
    ensures
        match r {
            Some(fields) => parse_fields(bytes@) == Some(fields@.map_values(|f: Vec<u8>| f@)),
            None => parse_fields(bytes@) is None,
        },
{
    let mut fields: Vec<Vec<u8>> = Vec::new();
    let mut pos: usize = 0;
    let len = bytes.len();
    assert(bytes@.subrange(0, len as int) =~= bytes@);
    assert(fields@.map_values(|f: Vec<u8>| f@) =~= Seq::<Seq<u8>>::empty());
    while pos < len
        invariant
            pos <= len == bytes@.len(),
            parse_fields(bytes@) == match parse_fields(bytes@.subrange(pos as int, len as int)) {
                Some(rest) => Some(fields@.map_values(|f: Vec<u8>| f@) + rest),
                None => None,
            },
        decreases len - pos,
    {
        let ghost tail = bytes@.subrange(pos as int, len as int);
        if len - pos < 8 {
            return None;
        }
        let n = get_u64(bytes, pos);
        proof {
            assert(tail.subrange(0, 8) =~= bytes@.subrange(pos as int, pos + 8));
        }
        if n > (len - pos - 8) as u64 {
            return None;
        }
        let n = n as usize;
        let field = copy_range(bytes, pos + 8, pos + 8 + n);
        proof {
            assert(tail.subrange(8, 8 + n) =~= field@);
            assert(tail.subrange(8 + n, tail.len() as int) =~= bytes@.subrange(
                pos + 8 + n,
                len as int,
            ));
            let done = fields@.map_values(|f: Vec<u8>| f@);
            assert(fields@.push(field).map_values(|f: Vec<u8>| f@) =~= done.push(field@));
            match parse_fields(bytes@.subrange(pos + 8 + n, len as int)) {
                Some(rest) => {
                    assert(done + (seq![field@] + rest) =~= done.push(field@) + rest);
                },
                None => {},
            }
        }
        fields.push(field);
        pos = pos + 8 + n;
    }
    proof {
        let done = fields@.map_values(|f: Vec<u8>| f@);
        assert(done + Seq::<Seq<u8>>::empty() =~= done);
    }
    Some(fields)
}

/// Parses every field of a list with `parse`: the parsed values, or
/// `None` where one field is rejected.
pub open spec fn parse_each<T>(fs: Seq<Seq<u8>>, parse: spec_fn(Seq<u8>) -> Option<T>) -> Option<
    Seq<T>,
> {
    if forall|i: int| 0 <= i < fs.len() ==> (#[trigger] parse(fs[i])) is Some {
        Some(Seq::new(fs.len(), |i: int| parse(fs[i]).unwrap()))
    } else {
        None
    }
}

/// Bytes of an address.
pub const ID_LEN: usize = 32;

/// Addresses written one after the other.
pub open spec fn ids_bytes(ids: Seq<Id>) -> Seq<u8>
    decreases ids.len(),
{
    if ids.len() == 0 {
        Seq::empty()
    } else {
        ids_bytes(ids.drop_last()) + ids.last()@
    }
}

/// The addresses that `bytes` hold, or `None` where the length is no
/// multiple of 32.
pub open spec fn parse_ids(bytes: Seq<u8>) -> Option<Seq<Id>> {
    if bytes.len() % 32 != 0 {
        None
    } else {
        Some(Seq::new(bytes.len() / 32, |i: int| id_at(bytes, 32 * i)))
    }
}

/// Parsing written addresses gives the addresses back.
pub proof fn lemma_ids_round_trip(ids: Seq<Id>)
    ensures
        ids_bytes(ids).len() == 32 * ids.len(),
        parse_ids(ids_bytes(ids)) == Some(ids),
    decreases ids.len(),
{
    if ids.len() == 0 {
        assert(parse_ids(ids_bytes(ids)).unwrap() =~= ids);
    } else {
        let front = ids.drop_last();
        lemma_ids_round_trip(front);
        let b = ids_bytes(ids);
        let fb = ids_bytes(front);
        assert(ids.last()@.len() == 32);
        assert(b.len() == 32 * ids.len());
        let parsed = parse_ids(b).unwrap();
        assert(parsed.len() == ids.len());
        assert forall|i: int| 0 <= i < ids.len() implies parsed[i] == ids[i] by {
            if i < front.len() {
                assert(parse_ids(fb).unwrap()[i] == front[i]);
                assert(b.subrange(32 * i, 32 * i + 32) =~= fb.subrange(32 * i, 32 * i + 32));
                assert(front[i]@ == fb.subrange(32 * i, 32 * i + 32)) by {
                    lemma_ids_slot(front, i);
                }
                lemma_id_at(front[i], b, 32 * i);
            } else {
                assert(b.subrange(32 * i, 32 * i + 32) =~= ids.last()@);
                lemma_id_at(ids.last(), b, 32 * i);
            }
        }
        assert(parsed =~= ids);
    }
}

/// The bytes of the address at position `i`.
pub proof fn lemma_ids_slot(ids: Seq<Id>, i: int)
    requires
        0 <= i < ids.len(),
    ensures
        ids_bytes(ids).len() == 32 * ids.len(),
        ids_bytes(ids).subrange(32 * i, 32 * i + 32) == ids[i]@,
    decreases ids.len(),
{
    let front = ids.drop_last();
    lemma_ids_len(front);
    lemma_ids_len(ids);
    assert(ids.last()@.len() == 32);
    if i < front.len() {
        lemma_ids_slot(front, i);
        assert(ids_bytes(ids).subrange(32 * i, 32 * i + 32) =~= ids_bytes(front).subrange(
            32 * i,
            32 * i + 32,
        ));
    } else {
        assert(ids_bytes(ids).subrange(32 * i, 32 * i + 32) =~= ids.last()@);
    }
}

/// Each address takes 32 bytes.
pub proof fn lemma_ids_len(ids: Seq<Id>)
    ensures
        ids_bytes(ids).len() == 32 * ids.len(),
    decreases ids.len(),
{
    if ids.len() > 0 {
        lemma_ids_len(ids.drop_last());
        assert(ids.last()@.len() == 32);
    }
}

/// Writes addresses one after the other.
pub fn write_ids(ids: &Vec<Id>) -> (out: Vec<u8>)
    ensures
        out@ == ids_bytes(ids@),
{
    let mut out: Vec<u8> = Vec::new();
    let mut i: usize = 0;
    while i < ids.len()
        invariant
            i <= ids@.len(),
            out@ == ids_bytes(ids@.take(i as int)),
        decreases ids@.len() - i,
    {
        ids[i].write(&mut out);
        proof {
            assert(ids@.take(i + 1).drop_last() =~= ids@.take(i as int));
            assert(ids@.take(i + 1).last() == ids@[i as int]);
        }
        i += 1;
    }
    assert(ids@.take(ids@.len() as int) =~= ids@);
    out
}

/// Reads addresses written one after the other.
pub fn read_ids(bytes: &[u8]) -> (r: Option<Vec<Id>>)
    ensures
        match r {
            Some(ids) => parse_ids(bytes@) == Some(ids@),
            None => parse_ids(bytes@) is None,
        },
{
    let len = bytes.len();
    if len % 32 != 0 {
        return None;
    }
    let n = len / 32;
    let mut ids: Vec<Id> = Vec::new();
    let mut i: usize = 0;
    while i < n
        invariant
            i <= n,
            len == bytes@.len(),
            n * 32 == len,
            ids@.len() == i,
            forall|j: int| 0 <= j < i ==> ids@[j] == id_at(bytes@, 32 * j),
        decreases n - i,
    {
        let id = Id::read(bytes, 32 * i);
        ids.push(id);
        i += 1;
    }
    assert(ids@ =~= parse_ids(bytes@).unwrap());
    Some(ids)
}

} // verus!
