//! Length-prefixed records packed back to back in one buffer.
//!
//! A record is an 8-byte little-endian length followed by that many key bytes.
//! A record is addressed by the offset of its length field.
use crate::buffer::Buffer;
use vstd::prelude::*;

verus! {

/// Width of a record's length field.
pub const LEN_BYTES: usize = 8;

/// The little-endian bytes of `n`.
pub open spec fn le8(n: u64) -> Seq<u8> {
    seq![
        n as u8,
        (n >> 8u64) as u8,
        (n >> 16u64) as u8,
        (n >> 24u64) as u8,
        (n >> 32u64) as u8,
        (n >> 40u64) as u8,
        (n >> 48u64) as u8,
        (n >> 56u64) as u8,
    ]
}

/// The integer whose little-endian bytes are the first eight of `b`.
pub open spec fn le8_value(b: Seq<u8>) -> u64 {
    (b[0] as u64) | ((b[1] as u64) << 8u64) | ((b[2] as u64) << 16u64) | ((b[3] as u64) << 24u64)
        | ((b[4] as u64) << 32u64) | ((b[5] as u64) << 40u64) | ((b[6] as u64) << 48u64) | ((
    b[7] as u64) << 56u64)
}

/// The record that stores `key`.
pub open spec fn record(key: Seq<u8>) -> Seq<u8> {
    le8(key.len() as u64) + key
}

/// The records of `keys`, in order, back to back.
pub open spec fn encode_all(keys: Seq<Seq<u8>>) -> Seq<u8>
    decreases keys.len(),
{
    if keys.len() == 0 {
        Seq::empty()
    } else {
        encode_all(keys.drop_last()) + record(keys.last())
    }
}

/// The sum of the lengths of `keys`.
pub open spec fn payload_len(keys: Seq<Seq<u8>>) -> int
    decreases keys.len(),
{
    if keys.len() == 0 {
        0
    } else {
        payload_len(keys.drop_last()) + keys.last().len()
    }
}

/// The offset of the `i`-th record among the records of `keys`.
pub open spec fn offset_of(keys: Seq<Seq<u8>>, i: int) -> int {
    encode_all(keys.take(i)).len() as int
}

/// The key of the record at `off` in `buf`, or `None` where the length field
/// or the payload would run past the end.
pub open spec fn decode_at(buf: Seq<u8>, off: int) -> Option<Seq<u8>> {
    if 0 <= off && off + 8 <= buf.len() && off + 8 + le8_value(buf.subrange(off, off + 8))
        <= buf.len() {
        Some(buf.subrange(off + 8, off + 8 + le8_value(buf.subrange(off, off + 8))))
    } else {
        None
    }
}

/// Whether every key's length fits the length field.
pub open spec fn lengths_fit(keys: Seq<Seq<u8>>) -> bool {
    forall|i: int| 0 <= i < keys.len() ==> keys[i].len() <= u64::MAX
}

pub proof fn lemma_le8_round_trip(n: u64)
    ensures
        le8_value(le8(n)) == n,
{
    let b = le8(n);
    assert(b[0] == n as u8);
    assert(b[7] == (n >> 56u64) as u8);
    assert(((n as u8) as u64) | ((((n >> 8u64) as u8) as u64) << 8u64) | ((((n >> 16u64) as u8)
        as u64) << 16u64) | ((((n >> 24u64) as u8) as u64) << 24u64) | ((((n >> 32u64) as u8)
        as u64) << 32u64) | ((((n >> 40u64) as u8) as u64) << 40u64) | ((((n >> 48u64) as u8)
        as u64) << 48u64) | ((((n >> 56u64) as u8) as u64) << 56u64) == n) by (bit_vector);
}

/// The encoding is as long as the keys plus one length field per key.
pub proof fn lemma_encode_len(keys: Seq<Seq<u8>>)
    ensures
        encode_all(keys).len() == payload_len(keys) + 8 * keys.len(),
    decreases keys.len(),
{
    if keys.len() > 0 {
        lemma_encode_len(keys.drop_last());
    }
}

/// The records of the first `i` keys are a prefix of the records of all.
pub proof fn lemma_take_prefix(keys: Seq<Seq<u8>>, i: int)
    requires
        0 <= i <= keys.len(),
    ensures
        offset_of(keys, i) <= encode_all(keys).len(),
        encode_all(keys).subrange(0, offset_of(keys, i)) == encode_all(keys.take(i)),
    decreases keys.len(),
{
    if i == keys.len() {
        assert(keys.take(i) =~= keys);
        assert(encode_all(keys).subrange(0, offset_of(keys, i)) =~= encode_all(keys));
    } else {
        let rest = keys.drop_last();
        assert(keys.take(i) =~= rest.take(i));
        lemma_take_prefix(rest, i);
        assert(encode_all(keys).subrange(0, offset_of(keys, i)) =~= encode_all(rest).subrange(
            0,
            offset_of(rest, i),
        ));
    }
}

/// One more key appends its record.
pub proof fn lemma_take_step(keys: Seq<Seq<u8>>, i: int)
    requires
        0 <= i < keys.len(),
    ensures
        encode_all(keys.take(i + 1)) == encode_all(keys.take(i)) + record(keys[i]),
        offset_of(keys, i + 1) == offset_of(keys, i) + 8 + keys[i].len(),
{
    assert(keys.take(i + 1).drop_last() =~= keys.take(i));
}

/// The `i`-th record lies at `offset_of(keys, i)`.
pub proof fn lemma_record_at(keys: Seq<Seq<u8>>, i: int)
    requires
        0 <= i < keys.len(),
    ensures
        offset_of(keys, i + 1) == offset_of(keys, i) + 8 + keys[i].len(),
        offset_of(keys, i + 1) <= encode_all(keys).len(),
        encode_all(keys).subrange(offset_of(keys, i), offset_of(keys, i + 1)) == record(keys[i]),
{
    lemma_take_step(keys, i);
    lemma_take_prefix(keys, i + 1);
    let e = encode_all(keys);
    let a = offset_of(keys, i);
    let b = offset_of(keys, i + 1);
    assert(e.subrange(a, b) =~= e.subrange(0, b).subrange(a, b));
    assert(encode_all(keys.take(i + 1)).subrange(a, b) =~= record(keys[i]));
}

/// Decoding at the `i`-th offset gives back the `i`-th key.
pub proof fn lemma_decode_record(keys: Seq<Seq<u8>>, i: int)
    requires
        0 <= i < keys.len(),
        lengths_fit(keys),
    ensures
        decode_at(encode_all(keys), offset_of(keys, i)) == Some(keys[i]),
{
    lemma_record_at(keys, i);
    let e = encode_all(keys);
    let a = offset_of(keys, i);
    let n = keys[i].len() as int;
    assert(e.subrange(a, a + 8) =~= le8(n as u64)) by {
        assert(e.subrange(a, a + 8) =~= e.subrange(a, a + 8 + n).subrange(0, 8));
    }
    lemma_le8_round_trip(n as u64);
    assert(e.subrange(a + 8, a + 8 + n) =~= e.subrange(a, a + 8 + n).subrange(8, 8 + n));
}

/// Offsets grow strictly with the index.
pub proof fn lemma_offsets_increase(keys: Seq<Seq<u8>>, i: int, j: int)
    requires
        0 <= i < j <= keys.len(),
    ensures
        offset_of(keys, i) + 8 <= offset_of(keys, j),
    decreases j - i,
{
    lemma_take_step(keys, j - 1);
    if i < j - 1 {
        lemma_offsets_increase(keys, i, j - 1);
    }
}

/// The little-endian bytes of `n`.
fn le8_bytes(n: u64) -> (r: Vec<u8>)
    ensures
        r@ == le8(n),
{
    let r: Vec<u8> = vec![
        n as u8,
        (n >> 8u64) as u8,
        (n >> 16u64) as u8,
        (n >> 24u64) as u8,
        (n >> 32u64) as u8,
        (n >> 40u64) as u8,
        (n >> 48u64) as u8,
        (n >> 56u64) as u8,
    ];
    assert(r@ =~= le8(n));
    r
}

/// Reads the little-endian integer at `at .. at + 8`.
fn read_le8(buf: &[u8], at: usize) -> (r: u64)
    requires
        at + 8 <= buf@.len(),
    ensures
        r == le8_value(buf@.subrange(at as int, at + 8)),
{
    let ghost b = buf@.subrange(at as int, at + 8);
    assert(b[0] == buf@[at as int] && b[1] == buf@[at + 1] && b[2] == buf@[at + 2] && b[3]
        == buf@[at + 3] && b[4] == buf@[at + 4] && b[5] == buf@[at + 5] && b[6] == buf@[at + 6]
        && b[7] == buf@[at + 7]);
    (buf[at] as u64) | ((buf[at + 1] as u64) << 8u64) | ((buf[at + 2] as u64) << 16u64) | ((buf[at
        + 3] as u64) << 24u64) | ((buf[at + 4] as u64) << 32u64) | ((buf[at + 5] as u64) << 40u64)
        | ((buf[at + 6] as u64) << 48u64) | ((buf[at + 7] as u64) << 56u64)
}

/// The key of the record at `offset` in `buf`; `None` where the record would
/// run past the end of `buf`.
pub fn get_with_offset(buf: &[u8], offset: usize) -> (r: Option<&[u8]>)
    ensures
        match r {
            Some(s) => decode_at(buf@, offset as int) == Some(s@),
            None => decode_at(buf@, offset as int) is None,
        },
{
    if buf.len() < LEN_BYTES || offset > buf.len() - LEN_BYTES {
        return None;
    }
    let base = offset + LEN_BYTES;
    let size = read_le8(buf, offset);
    if size > (buf.len() - base) as u64 {
        return None;
    }
    Some(vstd::slice::slice_subrange(buf, base, base + size as usize))
}

/// The records of a fixed sequence of keys, stored in one buffer in input order.
pub struct Data {
    data: Buffer,
    keys: Ghost<Seq<Seq<u8>>>,
}

impl Data {
    /// The keys stored, in storage order.
    pub closed spec fn keys(&self) -> Seq<Seq<u8>> {
        self.keys@
    }

    #[verifier::type_invariant]
    spec fn well_formed(&self) -> bool {
        &&& self.data@ == encode_all(self.keys@)
        &&& lengths_fit(self.keys@)
    }

    /// Packs `items` into a buffer of `total_size + len * 8` bytes. `len` must
    /// be the number of items and `total_size` the sum of their lengths.
    pub fn new(items: &Vec<Vec<u8>>, len: usize, total_size: usize) -> (r: Data)
        requires
            len == items@.len(),
            total_size == payload_len(items.deep_view()),
            total_size + len * 8 <= usize::MAX,
        ensures
            r.keys() == items.deep_view(),
    {
        let ghost keys = items.deep_view();
        proof {
            lemma_encode_len(keys);
        }
        let size = total_size + len * LEN_BYTES;
        let mut data = Buffer::new(size);
        let mut offset: usize = 0;
        let mut i: usize = 0;
        while i < items.len()
            invariant
                keys == items.deep_view(),
                size == encode_all(keys).len(),
                i <= keys.len(),
                data@.len() == size,
                offset <= size,
                forall|j: int| 0 <= j < i ==> keys[j].len() <= u64::MAX,
                offset == offset_of(keys, i as int),
                data@.subrange(0, offset as int) == encode_all(keys.take(i as int)),
            decreases keys.len() - i,
        {
            let item = &items[i];
            let n = item.len();
            proof {
                lemma_record_at(keys, i as int);
                lemma_take_step(keys, i as int);
                assert(keys[i as int] == item@);
            }
            let header = le8_bytes(n as u64);
            let ghost before = data@;
            data.write_at(offset, header.as_slice());
            data.write_at(offset + LEN_BYTES, item.as_slice());
            proof {
                assert(data@.subrange(0, offset + 8 + n) =~= before.subrange(0, offset as int)
                    + le8(n as u64) + item@);
            }
            offset = offset + LEN_BYTES + n;
            i = i + 1;
        }
        proof {
            assert(keys.take(keys.len() as int) =~= keys);
            assert(data@ =~= data@.subrange(0, offset as int));
        }
        Data { data, keys: Ghost(keys) }
    }

    /// The whole buffer.
    pub fn as_bytes(&self) -> (r: &[u8])
        ensures
            r@ == encode_all(self.keys()),
            lengths_fit(self.keys()),
    {
        proof {
            use_type_invariant(self);
        }
        self.data.as_slice()
    }

    /// The key of the record at `offset`, or `None` where no record fits there.
    pub fn get(&self, offset: usize) -> (r: Option<&[u8]>)
        ensures
            match r {
                Some(s) => decode_at(encode_all(self.keys()), offset as int) == Some(s@),
                None => decode_at(encode_all(self.keys()), offset as int) is None,
            },
            forall|i: int|
                0 <= i < self.keys().len() && offset == offset_of(self.keys(), i) ==> (r matches Some(
                    s,
                ) && s@ == self.keys()[i]),
    {
        proof {
            use_type_invariant(self);
            assert forall|i: int|
                0 <= i < self.keys().len() && offset == offset_of(self.keys(), i) implies decode_at(
                encode_all(self.keys()),
                offset as int,
            ) == Some(self.keys()[i]) by {
                lemma_decode_record(self.keys(), i);
            }
        }
        get_with_offset(self.data.as_slice(), offset)
    }

    /// The offset of every record, in storage order.
    pub fn iter(&self) -> (r: Vec<usize>)
        ensures
            r@.len() == self.keys().len(),
            forall|i: int| 0 <= i < r@.len() ==> r@[i] == offset_of(self.keys(), i),
    {
        proof {
            use_type_invariant(self);
        }
        let ghost keys = self.keys();
        let buf = self.data.as_slice();
        let mut out: Vec<usize> = Vec::new();
        let mut offset: usize = 0;
        proof {
            assert(keys.take(0) =~= Seq::<Seq<u8>>::empty());
        }
        while offset < buf.len()
            invariant
                buf@ == encode_all(keys),
                lengths_fit(keys),
                out@.len() <= keys.len(),
                offset == offset_of(keys, out@.len() as int),
                forall|j: int| 0 <= j < out@.len() ==> out@[j] == offset_of(keys, j),
            decreases buf@.len() - offset,
        {
            let ghost i = out@.len() as int;
            proof {
                if i == keys.len() {
                    assert(keys.take(i) =~= keys);
                }
                lemma_record_at(keys, i);
                lemma_decode_record(keys, i);
                lemma_le8_round_trip(keys[i].len() as u64);
            }
            let size = read_le8(buf, offset);
            out.push(offset);
            offset = offset + LEN_BYTES + size as usize;
        }
        proof {
            if out@.len() < keys.len() {
                lemma_offsets_increase(keys, out@.len() as int, keys.len() as int);
                assert(keys.take(keys.len() as int) =~= keys);
            }
        }
        out
    }
}

} // verus!
