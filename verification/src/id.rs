//! Content addresses.

use vstd::bytes::*;
use vstd::prelude::*;
use vstd::slice::*;

verus! {

/// What `sha2::Sha256::digest` makes of a message: its SHA-256 digest.
pub uninterp spec fn digest(data: Seq<u8>) -> Seq<u8>;

/// Calls `sha2::Sha256::digest`. The contract names the 32 bytes that come
/// back.
#[verifier::external_body]
fn sha256(data: &[u8]) -> (r: [u8; 32])
    ensures
        r@ == digest(data@),
{
    <sha2::Sha256 as sha2::Digest>::digest(data).into()
}

/// The address of an object: the SHA-256 digest of its content.
#[derive(Clone, Copy, Debug, PartialEq, Eq, Hash, PartialOrd, Ord)]
pub struct Id {
    pub bytes: [u8; 32],
}

impl View for Id {
    type V = Seq<u8>;

    open spec fn view(&self) -> Seq<u8> {
        self.bytes@
    }
}

/// The address whose 32 bytes start at `at`.
pub open spec fn id_at(bytes: Seq<u8>, at: int) -> Id {
    choose|id: Id| id@ == bytes.subrange(at, at + 32)
}

/// Reading the bytes of an address gives the address.
pub proof fn lemma_id_at(id: Id, bytes: Seq<u8>, at: int)
    requires
        bytes.subrange(at, at + 32) == id@,
    ensures
        id_at(bytes, at) == id,
{
    let other = id_at(bytes, at);
    assert(other@ == id@);
    assert(other.bytes@ =~= id.bytes@);
    assert(other.bytes == id.bytes);
}

/// Addresses with the same bytes are the same.
pub proof fn lemma_id_ext(a: Id, b: Id)
    requires
        a@ == b@,
    ensures
        a == b,
{
    assert(a.bytes@ =~= b.bytes@);
    assert(a.bytes == b.bytes);
}

/// The address of all zeros.
pub open spec fn zero_id() -> Id {
    id_at(Seq::new(32, |i: int| 0u8), 0)
}

/// The hexadecimal digit, a small letter or a figure, for a number below
/// 16.
pub open spec fn spec_digit(n: u8) -> u8 {
    if n < 10 {
        (48 + n) as u8
    } else {
        (87 + n) as u8
    }
}

/// The number that a hexadecimal digit stands for.
pub open spec fn spec_value(c: u8) -> Option<u8> {
    if 48 <= c <= 57 {
        Some((c - 48) as u8)
    } else if 97 <= c <= 102 {
        Some((c - 87) as u8)
    } else if 65 <= c <= 70 {
        Some((c - 55) as u8)
    } else {
        None
    }
}

/// The bytes in hexadecimal digits, two for each byte.
pub open spec fn hex_of(bytes: Seq<u8>) -> Seq<u8> {
    Seq::new(
        2 * bytes.len(),
        |i: int|
            if i % 2 == 0 {
                spec_digit(bytes[i / 2] / 16)
            } else {
                spec_digit(bytes[i / 2] % 16)
            },
    )
}

/// The hexadecimal digit for a number below 16.
pub fn digit_of(n: u8) -> (c: u8)
    requires
        n < 16,
    ensures
        c == spec_digit(n),
        spec_value(c) == Some(n),
{
    if n < 10 {
        48 + n
    } else {
        87 + n
    }
}

/// The number that a hexadecimal digit stands for.
pub fn value_of(c: u8) -> (r: Option<u8>)
    ensures
        r == spec_value(c),
        r matches Some(n) ==> n < 16,
{
    if 48 <= c && c <= 57 {
        Some(c - 48)
    } else if 97 <= c && c <= 102 {
        Some(c - 87)
    } else if 65 <= c && c <= 70 {
        Some(c - 55)
    } else {
        None
    }
}

/// Reading what was written in hexadecimal digits gives the address back.
pub proof fn law_hex_round_trip(id: Id, read: Id)
    requires
        forall|j: int|
            0 <= j < 32 ==> (#[trigger] read@[j]) == 16 * spec_value(hex_of(id@)[2 * j]).unwrap()
                + spec_value(hex_of(id@)[2 * j + 1]).unwrap(),
    ensures
        read == id,
{
    assert forall|j: int| 0 <= j < 32 implies read@[j] == id@[j] by {
        let b = id@[j];
        assert(hex_of(id@)[2 * j] == spec_digit(b / 16));
        assert(hex_of(id@)[2 * j + 1] == spec_digit(b % 16));
    }
    assert(read@ =~= id@);
    lemma_id_ext(read, id);
}

impl Id {
    /// The address of all zeros, which stands where no address is known.
    pub fn zero() -> (id: Id)
        ensures
            id@ == Seq::new(32, |i: int| 0u8),
            id == zero_id(),
    {
        let id = Id { bytes: [0u8; 32] };
        assert(id@ =~= Seq::new(32, |i: int| 0u8));
        proof {
            let z = Seq::new(32, |i: int| 0u8);
            assert(z.subrange(0, 32) =~= z);
            lemma_id_at(id, z, 0);
        }
        id
    }

    /// The address of `data`.
    pub fn of(data: &[u8]) -> (id: Id)
        ensures
            id@ == digest(data@),
    {
        Id { bytes: sha256(data) }
    }

    /// Whether two addresses are the same.
    pub fn same(&self, other: &Id) -> (r: bool)
        ensures
            r == (self@ == other@),
            r == (*self == *other),
    {
        let mut i: usize = 0;
        while i < 32
            invariant
                i <= 32,
                forall|j: int| 0 <= j < i ==> self.bytes@[j] == other.bytes@[j],
            decreases 32 - i,
        {
            if self.bytes[i] != other.bytes[i] {
                return false;
            }
            i += 1;
        }
        assert(self.bytes@ =~= other.bytes@);
        assert(self.bytes == other.bytes);
        true
    }

    /// Reads an address from the 32 bytes of `data` that start at `at`.
    pub fn read(data: &[u8], at: usize) -> (id: Id)
        requires
            at + 32 <= data.len(),
        ensures
            id@ == data@.subrange(at as int, at + 32),
            id == id_at(data@, at as int),
    {
        let mut bytes = [0u8; 32];
        let mut i: usize = 0;
        while i < 32
            invariant
                i <= 32,
                at + 32 <= data.len(),
                forall|j: int| 0 <= j < i ==> bytes@[j] == data@[at + j],
            decreases 32 - i,
        {
            bytes[i] = data[at + i];
            i += 1;
        }
        assert(bytes@ =~= data@.subrange(at as int, at + 32));
        let id = Id { bytes };
        proof {
            lemma_id_at(id, data@, at as int);
        }
        id
    }

    /// Appends the 32 bytes of the address to `out`.
    pub fn write(&self, out: &mut Vec<u8>)
        ensures
            final(out)@ == old(out)@ + self@,
    {
        let mut i: usize = 0;
        while i < 32
            invariant
                i <= 32,
                out@ == old(out)@ + self@.subrange(0, i as int),
            decreases 32 - i,
        {
            out.push(self.bytes[i]);
            assert(self@.subrange(0, i + 1) =~= self@.subrange(0, i as int).push(self@[i as int]));
            i += 1;
        }
        assert(self@.subrange(0, 32) =~= self@);
    }

    /// The address written in 64 hexadecimal digits, in small letters.
    pub fn to_hex(&self) -> (out: Vec<u8>)
        ensures
            out@ == hex_of(self@),
    {
        let mut out: Vec<u8> = Vec::new();
        let mut i: usize = 0;
        while i < 32
            invariant
                i <= 32,
                out@.len() == 2 * i,
                forall|j: int| 0 <= j < 2 * i ==> out@[j] == hex_of(self@)[j],
            decreases 32 - i,
        {
            let b = self.bytes[i];
            out.push(digit_of(b / 16));
            out.push(digit_of(b % 16));
            i += 1;
        }
        assert(out@ =~= hex_of(self@));
        out
    }

    /// Reads an address from 64 hexadecimal digits, in small or capital
    /// letters. Gives `None` for any other text.
    pub fn from_hex(text: &[u8]) -> (r: Option<Id>)
        ensures
            r is Some <==> text@.len() == 64 && forall|j: int|
                0 <= j < 64 ==> spec_value(#[trigger] text@[j]) is Some,
            r matches Some(id) ==> forall|j: int|
                0 <= j < 32 ==> (#[trigger] id@[j]) == 16 * spec_value(
                    text@[2 * j],
                ).unwrap() + spec_value(text@[2 * j + 1]).unwrap(),
    {
        if text.len() != 64 {
            return None;
        }
        let mut bytes = [0u8; 32];
        let mut i: usize = 0;
        while i < 32
            invariant
                i <= 32,
                text@.len() == 64,
                forall|j: int| 0 <= j < 2 * i ==> spec_value(#[trigger] text@[j]) is Some,
                forall|j: int|
                    0 <= j < i ==> (#[trigger] bytes@[j]) == 16 * spec_value(
                        text@[2 * j],
                    ).unwrap() + spec_value(text@[2 * j + 1]).unwrap(),
            decreases 32 - i,
        {
            let high = match value_of(text[2 * i]) {
                Some(v) => v,
                None => {
                    return None;
                },
            };
            let low = match value_of(text[2 * i + 1]) {
                Some(v) => v,
                None => {
                    return None;
                },
            };
            bytes[i] = 16 * high + low;
            i += 1;
        }
        Some(Id { bytes })
    }

    /// The first eight bytes as a number, little end first.
    pub open spec fn spec_prefix(self) -> u64 {
        spec_u64_from_le_bytes(self@.subrange(0, 8))
    }

    /// The first eight bytes as a number, little end first.
    pub fn prefix(&self) -> (r: u64)
        ensures
            r == self.spec_prefix(),
    {
        u64_from_le_bytes(slice_subrange(self.bytes.as_slice(), 0, 8))
    }
}

} // verus!
